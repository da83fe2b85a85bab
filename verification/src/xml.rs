//! Tiny forgiving XML reader/writer. Mod XML in the wild is often malformed (unclosed tags,
//! stray `<`, HTML entities), so this never fails: it returns whatever tree it could build.

use vstd::prelude::*;

use crate::text::{chars_of, eq_ignore_case, eq_ignore_case_chars, is_ws, sv, trim, trim_bounds};

verus! {

broadcast use {vstd::string::group_string_axioms, vstd::seq_lib::group_seq_properties};

/// An element.
#[derive(Debug)]
pub struct Node {
    pub name: String,
    /// Concatenated direct text, untrimmed.
    pub text: String,
    pub children: Vec<Node>,
    /// Attribute names on the opening tag (values are not kept).
    pub attrs: Vec<String>,
}

/// The mathematical value of an element.
pub struct Tree {
    pub name: Seq<char>,
    pub text: Seq<char>,
    pub children: Seq<Tree>,
    pub attrs: Seq<Seq<char>>,
}

/// The tree an element holds.
pub open spec fn tree(n: Node) -> Tree
    decreases n,
{
    Tree { name: n.name@, text: n.text@, children: trees(n.children@), attrs: sv(n.attrs@) }
}

/// The trees of a list of elements.
pub open spec fn trees(cs: Seq<Node>) -> Seq<Tree>
    decreases cs,
{
    if cs.len() == 0 {
        Seq::empty()
    } else {
        trees(cs.drop_last()).push(tree(cs.last()))
    }
}

/// Position of the first element of `cs` named `name`, ASCII case-insensitive (-1 if none).
pub open spec fn first_named(cs: Seq<Node>, name: Seq<char>) -> int
    decreases cs.len(),
{
    if cs.len() == 0 {
        -1
    } else {
        let r = first_named(cs.drop_last(), name);
        if r >= 0 {
            r
        } else if eq_ignore_case(cs.last().name@, name) {
            cs.len() - 1
        } else {
            -1
        }
    }
}

pub proof fn lemma_first_named(cs: Seq<Node>, name: Seq<char>)
    ensures
        -1 <= first_named(cs, name) < cs.len(),
        first_named(cs, name) >= 0 ==> eq_ignore_case(cs[first_named(cs, name)].name@, name),
        forall|k: int| 0 <= k < cs.len() && (first_named(cs, name) < 0 || k < first_named(cs, name)) ==> !eq_ignore_case(#[trigger] cs[k].name@, name),
    decreases cs.len(),
{
    if cs.len() > 0 {
        let d = cs.drop_last();
        lemma_first_named(d, name);
        assert forall|k: int| 0 <= k < cs.len() && (first_named(cs, name) < 0 || k < first_named(cs, name)) implies !eq_ignore_case(#[trigger] cs[k].name@, name) by {
            if k < cs.len() - 1 {
                assert(cs[k] == d[k]);
            }
        }
        if first_named(d, name) >= 0 {
            assert(cs[first_named(d, name)] == d[first_named(d, name)]);
        }
    }
}

/// The elements of `cs` named `name`, ASCII case-insensitive, in order.
pub open spec fn named(cs: Seq<Node>, name: Seq<char>) -> Seq<Node>
    decreases cs.len(),
{
    if cs.len() == 0 {
        Seq::empty()
    } else {
        let r = named(cs.drop_last(), name);
        if eq_ignore_case(cs.last().name@, name) {
            r.push(cs.last())
        } else {
            r
        }
    }
}

/// Trimmed, non-empty texts of the elements of `cs` that `keep` admits.
pub open spec fn li_values(cs: Seq<Node>, rimsort: bool) -> Seq<Seq<char>>
    decreases cs.len(),
{
    if cs.len() == 0 {
        Seq::empty()
    } else {
        let r = li_values(cs.drop_last(), rimsort);
        let c = cs.last();
        if li_kept(c, rimsort) && trim(c.text@).len() > 0 {
            r.push(trim(c.text@))
        } else {
            r
        }
    }
}

/// `c` is an `li` element and, for RimSort's reading, carries no attribute other than
/// `IgnoreIfNoMatchingField`.
pub open spec fn li_kept(c: Node, rimsort: bool) -> bool {
    &&& eq_ignore_case(c.name@, seq!['l', 'i'])
    &&& (!rimsort || c.attrs@.len() == 0 || sv(c.attrs@) == seq![ignore_attr()])
}

/// The one attribute RimSort tolerates on a list entry.
pub open spec fn ignore_attr() -> Seq<char> {
    "IgnoreIfNoMatchingField"@
}

impl Node {
    /// An element named `name` with no text, children or attributes.
    pub fn new(name: &str) -> (r: Node)
        ensures
            r.name@ == name@,
            r.text@ == Seq::<char>::empty(),
            r.children@.len() == 0,
            r.attrs@.len() == 0,
    {
        Node { name: String::from_str(name), text: String::new(), children: Vec::new(), attrs: Vec::new() }
    }

    /// Position of the first child named `name`, or the number of children.
    fn child_index(&self, name: &str) -> (r: usize)
        ensures
            r <= self.children@.len(),
            r < self.children@.len() ==> r as int == first_named(self.children@, name@),
            r == self.children@.len() ==> first_named(self.children@, name@) == -1,
    {
        proof {
            lemma_first_named(self.children@, name@);
        }
        let key = chars_of(name);
        let mut i: usize = 0;
        while i < self.children.len()
            invariant
                0 <= i <= self.children@.len(),
                key@ == name@,
                forall|k: int| 0 <= k < i ==> !eq_ignore_case(#[trigger] self.children@[k].name@, name@),
                -1 <= first_named(self.children@, name@) < self.children@.len(),
                first_named(self.children@, name@) >= 0 ==> eq_ignore_case(self.children@[first_named(self.children@, name@)].name@, name@),
                forall|k: int| 0 <= k < self.children@.len() && (first_named(self.children@, name@) < 0 || k < first_named(self.children@, name@)) ==> !eq_ignore_case(#[trigger] self.children@[k].name@, name@),
            decreases self.children@.len() - i,
        {
            let c = chars_of(self.children[i].name.as_str());
            if eq_ignore_case_chars(c.as_slice(), key.as_slice()) {
                return i;
            }
            i += 1;
        }
        i
    }

    /// Position of the first child named `name`, or the number of children.
    pub fn child_index_pub(&self, name: &str) -> (r: usize)
        ensures
            r <= self.children@.len(),
            r < self.children@.len() ==> r as int == first_named(self.children@, name@),
            r == self.children@.len() ==> first_named(self.children@, name@) == -1,
    {
        self.child_index(name)
    }

    /// First child by name, ASCII case-insensitive.
    pub fn child(&self, name: &str) -> (r: Option<&Node>)
        ensures
            r.is_some() == (first_named(self.children@, name@) >= 0),
            r matches Some(c) ==> *c == self.children@[first_named(self.children@, name@)],
    {
        let i = self.child_index(name);
        if i < self.children.len() {
            Some(&self.children[i])
        } else {
            None
        }
    }

    /// First child by name, ASCII case-insensitive, for changing it.
    pub fn child_mut(&mut self, name: &str) -> (r: Option<&mut Node>)
        ensures
            r.is_some() == (first_named(old(self).children@, name@) >= 0),
            r matches Some(c) ==> {
                let k = first_named(old(self).children@, name@);
                &&& *c == old(self).children@[k]
                &&& final(self).children@ == old(self).children@.update(k, *final(c))
                &&& final(self).name == old(self).name
                &&& final(self).text == old(self).text
                &&& final(self).attrs == old(self).attrs
            },
            r is None ==> *final(self) == *old(self),
    {
        let i = self.child_index(name);
        if i < self.children.len() {
            Some(&mut self.children[i])
        } else {
            None
        }
    }

    /// All children named `name`, ASCII case-insensitive, in order.
    pub fn children_named(&self, name: &str) -> (r: Vec<&Node>)
        ensures
            r@.len() == named(self.children@, name@).len(),
            forall|k: int| 0 <= k < r@.len() ==> *#[trigger] r@[k] == named(self.children@, name@)[k],
    {
        let key = chars_of(name);
        let mut r: Vec<&Node> = Vec::new();
        let mut i: usize = 0;
        while i < self.children.len()
            invariant
                0 <= i <= self.children@.len(),
                key@ == name@,
                r@.len() == named(self.children@.take(i as int), name@).len(),
                forall|k: int| 0 <= k < r@.len() ==> *#[trigger] r@[k] == named(self.children@.take(i as int), name@)[k],
            decreases self.children@.len() - i,
        {
            proof {
                assert(self.children@.take(i + 1).drop_last() == self.children@.take(i as int));
                assert(self.children@.take(i + 1).last() == self.children@[i as int]);
            }
            let c = chars_of(self.children[i].name.as_str());
            if eq_ignore_case_chars(c.as_slice(), key.as_slice()) {
                r.push(&self.children[i]);
            }
            i += 1;
        }
        proof {
            assert(self.children@.take(i as int) == self.children@);
        }
        r
    }

    /// The text without surrounding whitespace.
    pub fn trimmed(&self) -> (r: &str)
        ensures
            r@ == trim(self.text@),
    {
        let v = chars_of(self.text.as_str());
        let (a, b) = trim_bounds(v.as_slice());
        self.text.as_str().substring_char(a, b)
    }

    /// Trimmed text of the named child, if present and non-empty.
    pub fn child_text(&self, name: &str) -> (r: Option<&str>)
        ensures
            r.is_some() == (first_named(self.children@, name@) >= 0 && trim(
                self.children@[first_named(self.children@, name@)].text@,
            ).len() > 0),
            r matches Some(t) ==> t@ == trim(self.children@[first_named(self.children@, name@)].text@),
    {
        match self.child(name) {
            Some(c) => {
                let t = c.trimmed();
                if t.unicode_len() > 0 {
                    Some(t)
                } else {
                    None
                }
            },
            None => None,
        }
    }

    /// Trimmed, non-empty texts of the `<li>` children (`rimsort`: skipping those carrying an
    /// attribute other than `IgnoreIfNoMatchingField`, as RimSort does).
    fn li_collect(&self, rimsort: bool) -> (r: Vec<String>)
        ensures
            sv(r@) == li_values(self.children@, rimsort),
    {
        let li = vec!['l', 'i'];
        let ign = String::from_str("IgnoreIfNoMatchingField");
        let mut r: Vec<String> = Vec::new();
        let mut i: usize = 0;
        while i < self.children.len()
            invariant
                0 <= i <= self.children@.len(),
                li@ == seq!['l', 'i'],
                ign@ == ignore_attr(),
                sv(r@) == li_values(self.children@.take(i as int), rimsort),
            decreases self.children@.len() - i,
        {
            proof {
                assert(self.children@.take(i + 1).drop_last() == self.children@.take(i as int));
                assert(self.children@.take(i + 1).last() == self.children@[i as int]);
            }
            let c = &self.children[i];
            let cn = chars_of(c.name.as_str());
            let attrs_ok = !rimsort || c.attrs.len() == 0 || (c.attrs.len() == 1 && c.attrs[0] == ign);
            let ghost r0 = r@;
            proof {
                if c.attrs@.len() == 1 {
                    assert(sv(c.attrs@) == seq![c.attrs@[0]@]) by {
                        assert(sv(c.attrs@) =~= seq![c.attrs@[0]@]);
                    }
                    if sv(c.attrs@) == seq![ignore_attr()] {
                        assert(sv(c.attrs@)[0] == ignore_attr());
                    }
                }
            }
            if eq_ignore_case_chars(cn.as_slice(), li.as_slice()) && attrs_ok {
                let t = c.trimmed();
                if t.unicode_len() > 0 {
                    r.push(String::from_str(t));
                    proof {
                        assert(sv(r@) == sv(r0).push(trim(c.text@)));
                    }
                }
            }
            proof {
                assert(attrs_ok == (!rimsort || c.attrs@.len() == 0 || sv(c.attrs@) == seq![ignore_attr()])) by {
                    if c.attrs@.len() == 1 {
                        assert(sv(c.attrs@) =~= seq![c.attrs@[0]@]);
                    } else if c.attrs@.len() > 1 {
                        assert(sv(c.attrs@).len() != seq![ignore_attr()].len());
                    }
                }
                assert(li_kept(*c, rimsort) == (eq_ignore_case(cn@, li@) && attrs_ok));
                if !(li_kept(*c, rimsort) && trim(c.text@).len() > 0) {
                    assert(r@ == r0);
                }
            }
            i += 1;
        }
        proof {
            assert(self.children@.take(i as int) == self.children@);
        }
        r
    }

    /// Like `li_texts`, but skips `<li>` carrying attributes other than
    /// `IgnoreIfNoMatchingField`. RimSort's parser silently drops such entries (e.g.
    /// `MayRequire`) from load-order lists; this mirrors that so sort results match.
    pub fn li_texts_rimsort(&self) -> (r: Vec<String>)
        ensures
            sv(r@) == li_values(self.children@, true),
    {
        self.li_collect(true)
    }

    /// Trimmed, non-empty text of `<li>` children.
    pub fn li_texts(&self) -> (r: Vec<String>)
        ensures
            sv(r@) == li_values(self.children@, false),
    {
        self.li_collect(false)
    }
}

/// Value of `c` as a digit in base `radix` (-1 if it is none).
pub open spec fn digit_val(c: char, radix: int) -> int {
    let d = if '0' <= c && c <= '9' {
        c as int - '0' as int
    } else if 'a' <= c && c <= 'z' {
        c as int - 'a' as int + 10
    } else if 'A' <= c && c <= 'Z' {
        c as int - 'A' as int + 10
    } else {
        -1
    };
    if d < radix {
        d
    } else {
        -1
    }
}

/// Every character of `s` is a digit in base `radix`.
pub open spec fn all_digits(s: Seq<char>, radix: int) -> bool {
    forall|i: int| 0 <= i < s.len() ==> digit_val(#[trigger] s[i], radix) >= 0
}

/// The number the digits `s` spell in base `radix`.
pub open spec fn digits_value(s: Seq<char>, radix: int) -> int
    decreases s.len(),
{
    if s.len() == 0 {
        0
    } else {
        digits_value(s.drop_last(), radix) * radix + digit_val(s.last(), radix)
    }
}

/// `u32::from_str_radix`: an optional `+`, then one or more digits whose value fits.
pub open spec fn parse_u32(s: Seq<char>, radix: int) -> Option<u32> {
    let d = if s.len() > 0 && s[0] == '+' {
        s.drop_first()
    } else {
        s
    };
    if d.len() > 0 && all_digits(d, radix) && digits_value(d, radix) <= u32::MAX {
        Some(digits_value(d, radix) as u32)
    } else {
        None
    }
}

/// `char::from_u32`: the character with code `u`, if it is a Unicode scalar value.
pub open spec fn scalar(u: u32) -> Option<char> {
    if u < 0xD800 || (0xE000 <= u && u <= 0x10FFFF) {
        Some(u as char)
    } else {
        None
    }
}

/// The character an entity name (between `&` and `;`) stands for.
pub open spec fn entity_char(ent: Seq<char>) -> Option<char> {
    if ent == seq!['a', 'm', 'p'] {
        Some('&')
    } else if ent == seq!['l', 't'] {
        Some('<')
    } else if ent == seq!['g', 't'] {
        Some('>')
    } else if ent == seq!['q', 'u', 'o', 't'] {
        Some('"')
    } else if ent == seq!['a', 'p', 'o', 's'] {
        Some('\'')
    } else if ent == seq!['n', 'b', 's', 'p'] {
        Some('\u{a0}')
    } else if ent.len() > 0 && ent[0] == '#' {
        let n = ent.drop_first();
        let v = if n.len() > 0 && (n[0] == 'x' || n[0] == 'X') {
            parse_u32(n.drop_first(), 16)
        } else {
            parse_u32(n, 10)
        };
        match v {
            Some(u) => scalar(u),
            None => None,
        }
    } else {
        None
    }
}

/// Index of the first `c` in `s` at or after `from` (-1 if none).
pub open spec fn find_char(s: Seq<char>, from: int, c: char) -> int
    decreases s.len() - from,
{
    if from < 0 || from >= s.len() {
        -1
    } else if s[from] == c {
        from
    } else {
        find_char(s, from + 1, c)
    }
}

/// Length of the entity reference at the start of `s` (from `&` through `;`, at most ten
/// characters before the `;`) and the character it stands for.
pub open spec fn entity_at(s: Seq<char>) -> Option<(char, int)> {
    let e = find_char(s, 0, ';');
    if 0 < e <= 10 {
        match entity_char(s.subrange(1, e)) {
            Some(c) => Some((c, e + 1)),
            None => None,
        }
    } else {
        None
    }
}

/// `s` with its entity references decoded; an `&` that starts no known entity stays.
pub open spec fn unescaped(s: Seq<char>) -> Seq<char>
    decreases s.len(),
{
    if s.len() == 0 {
        Seq::empty()
    } else if s[0] != '&' {
        seq![s[0]] + unescaped(s.drop_first())
    } else {
        match entity_at(s) {
            Some(p) => if 1 <= p.1 <= s.len() {
                seq![p.0] + unescaped(s.skip(p.1))
            } else {
                seq!['&'] + unescaped(s.drop_first())
            },
            None => seq!['&'] + unescaped(s.drop_first()),
        }
    }
}

/// Calls `char::from_u32`, documented to return the character with code `u` when `u` is a
/// Unicode scalar value (below 0xD800, or from 0xE000 through 0x10FFFF), and `None` otherwise.
#[verifier::external_body]
fn char_from_u32(u: u32) -> (r: Option<char>)
    ensures
        r == scalar(u),
{
    char::from_u32(u)
}

/// `v[a..b] == w`.
fn is_word(v: &[char], a: usize, b: usize, w: &[char]) -> (r: bool)
    requires
        a <= b <= v@.len(),
    ensures
        r == (v@.subrange(a as int, b as int) == w@),
{
    if b - a != w.len() {
        return false;
    }
    let mut i: usize = 0;
    while i < w.len()
        invariant
            a <= b <= v@.len(),
            b - a == w@.len(),
            0 <= i <= w@.len(),
            forall|k: int| 0 <= k < i ==> v@[a + k] == w@[k],
        decreases w@.len() - i,
    {
        if v[a + i] != w[i] {
            assert(v@.subrange(a as int, b as int)[i as int] != w@[i as int]);
            return false;
        }
        i += 1;
    }
    assert(v@.subrange(a as int, b as int) =~= w@);
    true
}

/// Digit value of `c` in base `radix`, or `radix` when it is no digit.
pub(crate) fn digit(c: char, radix: u32) -> (r: u32)
    requires
        radix == 10 || radix == 16,
    ensures
        digit_val(c, radix as int) >= 0 ==> r as int == digit_val(c, radix as int),
        digit_val(c, radix as int) < 0 ==> r == radix,
{
    let d: u32 = if '0' <= c && c <= '9' {
        (c as u32) - ('0' as u32)
    } else if 'a' <= c && c <= 'z' {
        (c as u32) - ('a' as u32) + 10
    } else if 'A' <= c && c <= 'Z' {
        (c as u32) - ('A' as u32) + 10
    } else {
        radix
    };
    if d < radix {
        d
    } else {
        radix
    }
}

pub(crate) proof fn lemma_digits_grow(s: Seq<char>, radix: int, k: int)
    requires
        radix >= 2,
        all_digits(s, radix),
        0 <= k <= s.len(),
    ensures
        0 <= digits_value(s.take(k), radix) <= digits_value(s, radix),
    decreases s.len(),
{
    if s.len() > 0 {
        let d = s.drop_last();
        assert(all_digits(d, radix)) by {
            assert forall|i: int| 0 <= i < d.len() implies digit_val(#[trigger] d[i], radix) >= 0 by {
                assert(d[i] == s[i]);
            }
        }
        assert(digit_val(s[s.len() - 1], radix) >= 0);
        if k < s.len() {
            assert(d.take(k) == s.take(k));
            lemma_digits_grow(d, radix, k);
        } else {
            assert(s.take(k) == s);
            lemma_digits_grow(d, radix, d.len() as int);
            assert(d.take(d.len() as int) == d);
        }
        let v = digits_value(d, radix);
        assert(v * radix >= v) by (nonlinear_arith)
            requires
                v >= 0,
                radix >= 2,
        ;
    }
}

/// `u32::from_str_radix(v[a..b], radix)`, as an option.
pub fn parse_u32_at(v: &[char], a: usize, b: usize, radix: u32) -> (r: Option<u32>)
    requires
        a <= b <= v@.len(),
        radix == 10 || radix == 16,
    ensures
        r == parse_u32(v@.subrange(a as int, b as int), radix as int),
{
    let ghost s = v@.subrange(a as int, b as int);
    let mut a2 = a;
    if a < b && v[a] == '+' {
        a2 = a + 1;
    }
    let ghost d = v@.subrange(a2 as int, b as int);
    proof {
        if s.len() > 0 && s[0] == '+' {
            assert(d == s.drop_first());
        } else {
            assert(d == s);
        }
    }
    if a2 == b {
        return None;
    }
    let mut val: u64 = 0;
    let mut i: usize = a2;
    while i < b
        invariant
            a2 <= i <= b <= v@.len(),
            a2 < b,
            d == v@.subrange(a2 as int, b as int),
            s == v@.subrange(a as int, b as int),
            d == (if s.len() > 0 && s[0] == '+' { s.drop_first() } else { s }),
            radix == 10 || radix == 16,
            val as int == digits_value(d.take(i - a2), radix as int),
            val <= u32::MAX,
            all_digits(d.take(i - a2), radix as int),
        decreases b - i,
    {
        let k: usize = i - a2;
        proof {
            assert(d.take(k + 1).drop_last() == d.take(k as int));
            assert(d.take(k + 1).last() == v@[i as int]);
        }
        let dv = digit(v[i], radix);
        if dv == radix {
            proof {
                assert(!all_digits(d, radix as int)) by {
                    assert(d[k as int] == v@[i as int]);
                }
            }
            return None;
        }
        proof {
            assert(val * (radix as u64) <= 0xFFFF_FFFFu64 * 16) by (nonlinear_arith)
                requires
                    val <= u32::MAX,
                    radix <= 16,
            ;
        }
        val = val * (radix as u64) + (dv as u64);
        proof {
            assert(all_digits(d.take(k + 1), radix as int)) by {
                assert forall|j: int| 0 <= j < d.take(k + 1).len() implies digit_val(#[trigger] d.take(k + 1)[j], radix as int) >= 0 by {
                    if j < k {
                        assert(d.take(k + 1)[j] == d.take(k as int)[j]);
                    }
                }
            }
        }
        if val > 0xFFFF_FFFFu64 {
            proof {
                if all_digits(d, radix as int) {
                    lemma_digits_grow(d, radix as int, k + 1);
                }
            }
            return None;
        }
        i += 1;
    }
    proof {
        assert(d.take(i - a2) == d);
    }
    Some(val as u32)
}

/// The character the entity name `v[a..b]` stands for.
#[verifier::rlimit(40)]
fn entity_value(v: &[char], a: usize, b: usize) -> (r: Option<char>)
    requires
        a <= b <= v@.len(),
    ensures
        r == entity_char(v@.subrange(a as int, b as int)),
{
    let ghost ent = v@.subrange(a as int, b as int);
    if is_word(v, a, b, &['a', 'm', 'p']) {
        return Some('&');
    }
    if is_word(v, a, b, &['l', 't']) {
        return Some('<');
    }
    if is_word(v, a, b, &['g', 't']) {
        return Some('>');
    }
    if is_word(v, a, b, &['q', 'u', 'o', 't']) {
        return Some('"');
    }
    if is_word(v, a, b, &['a', 'p', 'o', 's']) {
        return Some('\'');
    }
    if is_word(v, a, b, &['n', 'b', 's', 'p']) {
        return Some('\u{a0}');
    }
    if a < b && v[a] == '#' {
        let n = a + 1;
        proof {
            assert(ent.drop_first() == v@.subrange(n as int, b as int));
        }
        let parsed = if n < b && (v[n] == 'x' || v[n] == 'X') {
            proof {
                assert(ent.drop_first().drop_first() == v@.subrange(n + 1, b as int));
            }
            parse_u32_at(v, n + 1, b, 16)
        } else {
            parse_u32_at(v, n, b, 10)
        };
        match parsed {
            Some(u) => char_from_u32(u),
            None => None,
        }
    } else {
        None
    }
}

/// Index of the first `c` in `v[from..to]`, or `to`.
fn find_in(v: &[char], from: usize, to: usize, c: char) -> (r: usize)
    requires
        from <= to <= v@.len(),
    ensures
        from <= r <= to,
        r < to ==> v@[r as int] == c,
        forall|k: int| from <= k < r ==> v@[k] != c,
{
    let mut i = from;
    while i < to
        invariant
            from <= i <= to <= v@.len(),
            forall|k: int| from <= k < i ==> v@[k] != c,
        decreases to - i,
    {
        if v[i] == c {
            return i;
        }
        i += 1;
    }
    i
}

proof fn lemma_find_char(s: Seq<char>, from: int, c: char, r: int)
    requires
        0 <= from <= r <= s.len(),
        r < s.len() ==> s[r] == c,
        forall|k: int| from <= k < r ==> s[k] != c,
    ensures
        find_char(s, from, c) == if r < s.len() { r } else { -1 },
    decreases r - from,
{
    if from < r {
        lemma_find_char(s, from + 1, c, r);
    }
}

/// Appends `v[from..to]` with its entity references decoded.
#[verifier::rlimit(40)]
fn unescape(v: &[char], from: usize, to: usize, out: &mut String)
    requires
        from <= to <= v@.len(),
    ensures
        final(out)@ == old(out)@ + unescaped(v@.subrange(from as int, to as int)),
{
    let mut i = from;
    while i < to
        invariant
            from <= i <= to <= v@.len(),
            old(out)@ + unescaped(v@.subrange(from as int, to as int)) == out@ + unescaped(v@.subrange(i as int, to as int)),
        decreases to - i,
    {
        let ghost rest = v@.subrange(i as int, to as int);
        proof {
            assert(rest[0] == v@[i as int]);
            assert(rest.drop_first() == v@.subrange(i + 1, to as int));
        }
        let c = v[i];
        if c != '&' {
            crate::text::push_char(out, c);
            i += 1;
        } else {
            let e = find_in(v, i, to, ';');
            proof {
                lemma_find_char(rest, 0, ';', e - i);
            }
            let mut decoded: Option<char> = None;
            if e < to && e > i && e - i <= 10 {
                decoded = entity_value(v, i + 1, e);
                proof {
                    assert(rest.subrange(1, e - i) == v@.subrange(i + 1, e as int));
                }
            }
            match decoded {
                Some(ch) => {
                    crate::text::push_char(out, ch);
                    proof {
                        assert(rest.skip(e - i + 1) == v@.subrange(e + 1, to as int));
                    }
                    i = e + 1;
                },
                None => {
                    crate::text::push_char(out, '&');
                    i += 1;
                },
            }
        }
    }
}

/// Scanner state for attribute names: names found, open quote, current word.
pub type AttrState = (Seq<Seq<char>>, Option<char>, Seq<char>);

/// One character of the text between a tag name and its `>`: quotes are skipped whole, a word
/// followed by `=` is an attribute name, whitespace ends a word, `/` is ignored.
pub open spec fn attr_step(st: AttrState, c: char) -> AttrState {
    let (out, quote, cur) = st;
    match quote {
        Some(q) => if c == q {
            (out, None, cur)
        } else {
            st
        },
        None => if c == '"' || c == '\'' {
            (out, Some(c), cur)
        } else if c == '=' {
            let n = trim(cur);
            (if n.len() > 0 {
                out.push(n)
            } else {
                out
            }, None, Seq::empty())
        } else if is_ws(c) {
            (out, None, Seq::empty())
        } else if c == '/' {
            st
        } else {
            (out, None, cur.push(c))
        },
    }
}

/// The scanner state after the characters `s`.
pub open spec fn attr_scan(s: Seq<char>) -> AttrState
    decreases s.len(),
{
    if s.len() == 0 {
        (Seq::empty(), None, Seq::empty())
    } else {
        attr_step(attr_scan(s.drop_last()), s.last())
    }
}

/// Names of `name="value"` attributes in the text `s` between a tag name and its `>`.
pub open spec fn attr_list(s: Seq<char>) -> Seq<Seq<char>> {
    attr_scan(s).0
}

/// Names of `name="value"` attributes in `v[from..to]`.
fn attr_names(v: &[char], from: usize, to: usize) -> (r: Vec<String>)
    requires
        from <= to <= v@.len(),
    ensures
        sv(r@) == attr_list(v@.subrange(from as int, to as int)),
{
    let mut out: Vec<String> = Vec::new();
    let mut quote: Option<char> = None;
    let mut cur: Vec<char> = Vec::new();
    let mut i = from;
    proof {
        assert(v@.subrange(from as int, from as int) =~= Seq::<char>::empty());
    }
    while i < to
        invariant
            from <= i <= to <= v@.len(),
            attr_scan(v@.subrange(from as int, i as int)) == (sv(out@), quote, cur@),
        decreases to - i,
    {
        let c = v[i];
        proof {
            assert(v@.subrange(from as int, i + 1).drop_last() == v@.subrange(from as int, i as int));
            assert(v@.subrange(from as int, i + 1).last() == c);
        }
        match quote {
            Some(q) => {
                if c == q {
                    quote = None;
                }
            },
            None => {
                if c == '"' || c == '\'' {
                    quote = Some(c);
                } else if c == '=' {
                    let (a, b) = trim_bounds(cur.as_slice());
                    if a < b {
                        let n = crate::text::string_of_range(cur.as_slice(), a, b);
                        let ghost o0 = out@;
                        out.push(n);
                        proof {
                            assert(sv(out@) == sv(o0).push(n@));
                        }
                    }
                    cur = Vec::new();
                } else if crate::text::is_whitespace(c) {
                    cur = Vec::new();
                } else if c != '/' {
                    cur.push(c);
                }
            },
        }
        i += 1;
    }
    out
}

/// What `char::is_alphabetic` returns for `c` (the Unicode `Alphabetic` property).
pub uninterp spec fn alphabetic(c: char) -> bool;

/// Calls `char::is_alphabetic`. The result is named `alphabetic(c)`: the standard library's
/// Unicode `Alphabetic` property, a function of the character alone.
#[verifier::external_body]
fn is_alphabetic(c: char) -> (r: bool)
    ensures
        r == alphabetic(c),
{
    c.is_alphabetic()
}

/// A character a tag name may start with: a letter (ASCII letters are alphabetic) or `_`.
pub open spec fn name_start(c: char) -> bool {
    ||| ('a' <= c && c <= 'z')
    ||| ('A' <= c && c <= 'Z')
    ||| c == '_'
    ||| alphabetic(c)
}

/// Whether a tag name may start with `c` (see `name_start`).
fn is_name_start(c: char) -> (r: bool)
    ensures
        r == name_start(c),
{
    ('a' <= c && c <= 'z') || ('A' <= c && c <= 'Z') || c == '_' || is_alphabetic(c)
}

/// `s[i..]` begins with `p`.
pub open spec fn starts(s: Seq<char>, i: int, p: Seq<char>) -> bool {
    0 <= i && i + p.len() <= s.len() && s.subrange(i, i + p.len()) == p
}

/// Index of the first occurrence of `p` in `s` at or after `from` (-1 if none).
pub open spec fn find_seq(s: Seq<char>, from: int, p: Seq<char>) -> int
    decreases s.len() - from,
{
    if from < 0 || from >= s.len() || from + p.len() > s.len() {
        -1
    } else if starts(s, from, p) {
        from
    } else {
        find_seq(s, from + 1, p)
    }
}

/// First index at or after `k` holding whitespace, `/` or `>` (`s.len()` if none): the end of a
/// tag name.
pub open spec fn name_end(s: Seq<char>, k: int) -> int
    decreases s.len() - k,
{
    if k < 0 || k >= s.len() {
        s.len() as int
    } else if is_ws(s[k]) || s[k] == '/' || s[k] == '>' {
        k
    } else {
        name_end(s, k + 1)
    }
}

/// Index of the `>` closing a tag, skipping quoted values, scanning from `j` with the quote
/// `q` open (`s.len()` if none).
pub open spec fn tag_end(s: Seq<char>, j: int, q: Option<char>) -> int
    decreases s.len() - j,
{
    if j < 0 || j >= s.len() {
        s.len() as int
    } else {
        match q {
            Some(c) => if s[j] == c {
                tag_end(s, j + 1, None)
            } else {
                tag_end(s, j + 1, q)
            },
            None => if s[j] == '"' || s[j] == '\'' {
                tag_end(s, j + 1, Some(s[j]))
            } else if s[j] == '>' {
                j
            } else {
                tag_end(s, j + 1, None)
            },
        }
    }
}

/// An element named `name` with no text, children or attributes.
pub open spec fn leaf(name: Seq<char>, attrs: Seq<Seq<char>>) -> Tree {
    Tree { name, text: Seq::empty(), children: Seq::empty(), attrs }
}

/// The open elements with `t` appended to the text of the innermost.
pub open spec fn add_text(st: Seq<Tree>, t: Seq<char>) -> Seq<Tree> {
    let top = st.last();
    st.update(st.len() - 1, Tree { text: top.text + t, ..top })
}

/// The open elements with `c` appended to the children of the innermost.
pub open spec fn add_child(st: Seq<Tree>, c: Tree) -> Seq<Tree> {
    let top = st.last();
    st.update(st.len() - 1, Tree { children: top.children.push(c), ..top })
}

/// Closes open elements, each into its parent, until `pos` remain (at least one).
pub open spec fn close_to(st: Seq<Tree>, pos: int) -> Seq<Tree>
    decreases st.len(),
{
    if st.len() <= pos || st.len() <= 1 {
        st
    } else {
        close_to(add_child(st.drop_last(), st.last()), pos)
    }
}

/// Position of the innermost open element named exactly `name` (-1 if none).
pub open spec fn last_named(st: Seq<Tree>, name: Seq<char>) -> int
    decreases st.len(),
{
    if st.len() == 0 {
        -1
    } else if st.last().name == name {
        st.len() - 1
    } else {
        last_named(st.drop_last(), name)
    }
}

/// One step of the reader at position `i` with the open elements `st`: the next position and
/// the new open elements.
pub open spec fn parse_step(s: Seq<char>, i: int, st: Seq<Tree>) -> (int, Seq<Tree>) {
    let n = s.len() as int;
    if s[i] != '<' {
        let e = find_char(s, i, '<');
        let end = if e < 0 { n } else { e };
        (end, add_text(st, unescaped(s.subrange(i, end))))
    } else if starts(s, i, seq!['<', '!', '-', '-']) {
        let p = find_seq(s, i, seq!['-', '-', '>']);
        (if p < 0 { n } else { p + 3 }, st)
    } else if starts(s, i, seq!['<', '!', '[', 'C', 'D', 'A', 'T', 'A', '[']) {
        let p = find_seq(s, i + 9, seq![']', ']', '>']);
        let end = if p < 0 { n } else { p };
        (end + 3, add_text(st, s.subrange(i + 9, end)))
    } else if starts(s, i, seq!['<', '?']) {
        let p = find_seq(s, i, seq!['?', '>']);
        (if p < 0 { n } else { p + 2 }, st)
    } else if starts(s, i, seq!['<', '!']) {
        let p = find_char(s, i, '>');
        (if p < 0 { n } else { p + 1 }, st)
    } else if starts(s, i, seq!['<', '/']) {
        let p = find_char(s, i + 2, '>');
        let end = if p < 0 { n } else { p };
        let pos = last_named(st, trim(s.subrange(i + 2, end)));
        (end + 1, if pos > 0 { close_to(st, pos) } else { st })
    } else if i + 1 < n && name_start(s[i + 1]) {
        let ne = name_end(s, i + 1);
        let j = tag_end(s, ne, None);
        let node = leaf(s.subrange(i + 1, ne), attr_list(s.subrange(ne, j)));
        (j + 1, if j < n && s[j - 1] == '/' { add_child(st, node) } else { st.push(node) })
    } else {
        (i + 1, add_text(st, seq!['<']))
    }
}

/// The open elements once the reader has consumed `s` from position `i`.
pub open spec fn parse_run(s: Seq<char>, i: int, st: Seq<Tree>) -> Seq<Tree>
    decreases s.len() - i,
{
    if i < 0 || i >= s.len() || st.len() == 0 {
        st
    } else {
        let r = parse_step(s, i, st);
        if r.0 <= i || r.0 >= s.len() {
            r.1
        } else {
            parse_run(s, r.0, r.1)
        }
    }
}

/// The synthetic root.
pub open spec fn root_tree() -> Tree {
    leaf("#root"@, Seq::empty())
}

/// The tree read from `s`: a synthetic root whose children are the top-level elements, every
/// element left open at the end closed into its parent.
pub open spec fn parse_tree(s: Seq<char>) -> Tree {
    close_to(parse_run(s, 0, seq![root_tree()]), 1)[0]
}

proof fn lemma_trees(cs: Seq<Node>)
    ensures
        trees(cs).len() == cs.len(),
        forall|k: int| 0 <= k < cs.len() ==> #[trigger] trees(cs)[k] == tree(cs[k]),
    decreases cs.len(),
{
    if cs.len() > 0 {
        lemma_trees(cs.drop_last());
        assert forall|k: int| 0 <= k < cs.len() implies #[trigger] trees(cs)[k] == tree(cs[k]) by {
            if k < cs.len() - 1 {
                assert(cs.drop_last()[k] == cs[k]);
            }
        }
    }
}

proof fn lemma_trees_push(cs: Seq<Node>, x: Node)
    ensures
        trees(cs.push(x)) == trees(cs).push(tree(x)),
{
    assert(cs.push(x).drop_last() == cs);
}

/// `starts` through the text helper.
fn starts_with_at(v: &[char], i: usize, p: &[char]) -> (r: bool)
    requires
        i <= v@.len(),
    ensures
        r == starts(v@, i as int, p@),
{
    let r = crate::text::starts_at(v, i, p);
    proof {
        if p@.len() <= v@.len() - i {
            assert(v@.subrange(i as int, v@.len() as int).subrange(0, p@.len() as int) == v@.subrange(i as int, i + p@.len()));
        }
    }
    r
}

/// Index of the first occurrence of `p` (non-empty) in `v` at or after `from`, or `v.len()`.
pub(crate) fn find_pat(v: &[char], from: usize, p: &[char]) -> (r: usize)
    requires
        from <= v@.len(),
        p@.len() > 0,
    ensures
        from <= r <= v@.len(),
        r < v@.len() ==> r as int == find_seq(v@, from as int, p@) && starts(v@, r as int, p@),
        r == v@.len() ==> find_seq(v@, from as int, p@) == -1,
{
    let mut k = from;
    while k < v.len() && p.len() <= v.len() - k
        invariant
            from <= k <= v@.len(),
            p@.len() > 0,
            find_seq(v@, from as int, p@) == find_seq(v@, k as int, p@),
        decreases v@.len() - k,
    {
        if starts_with_at(v, k, p) {
            return k;
        }
        k += 1;
    }
    v.len()
}

/// End of the tag name starting at `k`.
fn name_end_at(v: &[char], k: usize) -> (r: usize)
    requires
        k <= v@.len(),
    ensures
        r as int == name_end(v@, k as int),
        k <= r <= v@.len(),
{
    let mut i = k;
    while i < v.len()
        invariant
            k <= i <= v@.len(),
            name_end(v@, k as int) == name_end(v@, i as int),
        decreases v@.len() - i,
    {
        let c = v[i];
        if crate::text::is_whitespace(c) || c == '/' || c == '>' {
            return i;
        }
        i += 1;
    }
    i
}

/// Index of the `>` closing the tag whose attributes start at `j`.
fn tag_end_at(v: &[char], j: usize) -> (r: usize)
    requires
        j <= v@.len(),
    ensures
        r as int == tag_end(v@, j as int, None),
        j <= r <= v@.len(),
{
    let mut i = j;
    let mut quote: Option<char> = None;
    while i < v.len()
        invariant
            j <= i <= v@.len(),
            tag_end(v@, j as int, None) == tag_end(v@, i as int, quote),
        decreases v@.len() - i,
    {
        let c = v[i];
        match quote {
            Some(q) => {
                if c == q {
                    quote = None;
                }
            },
            None => {
                if c == '"' || c == '\'' {
                    quote = Some(c);
                } else if c == '>' {
                    return i;
                }
            },
        }
        i += 1;
    }
    i
}

/// Position of the innermost open element named exactly `name`, or `stack.len()`.
fn last_named_at(stack: &Vec<Node>, name: &[char]) -> (r: usize)
    ensures
        r <= stack@.len(),
        r < stack@.len() ==> r as int == last_named(trees(stack@), name@),
        r == stack@.len() ==> last_named(trees(stack@), name@) == -1,
{
    proof {
        lemma_trees(stack@);
    }
    let ghost st = trees(stack@);
    let mut k = stack.len();
    proof {
        assert(st.take(k as int) == st);
    }
    while k > 0
        invariant
            0 <= k <= stack@.len(),
            st == trees(stack@),
            st.len() == stack@.len(),
            forall|x: int| 0 <= x < stack@.len() ==> #[trigger] st[x] == tree(stack@[x]),
            last_named(st, name@) == last_named(st.take(k as int), name@),
        decreases k,
    {
        let ghost t = st.take(k as int);
        proof {
            assert(t.drop_last() == st.take(k - 1));
            assert(t.last() == st[k - 1]);
        }
        let c = chars_of(stack[k - 1].name.as_str());
        if crate::text::chars_eq(c.as_slice(), name) {
            return k - 1;
        }
        k -= 1;
    }
    stack.len()
}

/// Appends the decoded `v[a..b]` to the text of the innermost open element.
fn top_text_unescaped(stack: &mut Vec<Node>, v: &[char], a: usize, b: usize)
    requires
        old(stack)@.len() >= 1,
        a <= b <= v@.len(),
    ensures
        final(stack)@.len() == old(stack)@.len(),
        trees(final(stack)@) == add_text(trees(old(stack)@), unescaped(v@.subrange(a as int, b as int))),
{
    let ghost s0 = stack@;
    let mut top = stack.pop().unwrap();
    let ghost t0 = top;
    unescape(v, a, b, &mut top.text);
    proof {
        assert(s0 == stack@.push(t0));
        lemma_trees_push(stack@, t0);
        lemma_trees_push(stack@, top);
        lemma_trees(s0);
    }
    stack.push(top);
    proof {
        assert(trees(stack@) =~= add_text(trees(s0), unescaped(v@.subrange(a as int, b as int))));
    }
}

/// Appends `v[a..b]` to the text of the innermost open element.
fn top_text_raw(stack: &mut Vec<Node>, v: &[char], a: usize, b: usize)
    requires
        old(stack)@.len() >= 1,
        a <= b <= v@.len(),
    ensures
        final(stack)@.len() == old(stack)@.len(),
        trees(final(stack)@) == add_text(trees(old(stack)@), v@.subrange(a as int, b as int)),
{
    let ghost s0 = stack@;
    let mut top = stack.pop().unwrap();
    let ghost t0 = top;
    let mut i = a;
    while i < b
        invariant
            a <= i <= b <= v@.len(),
            top.name == t0.name,
            top.children == t0.children,
            top.attrs == t0.attrs,
            top.text@ == t0.text@ + v@.subrange(a as int, i as int),
        decreases b - i,
    {
        crate::text::push_char(&mut top.text, v[i]);
        proof {
            assert(v@.subrange(a as int, i + 1) == v@.subrange(a as int, i as int).push(v@[i as int]));
        }
        i += 1;
    }
    proof {
        assert(s0 == stack@.push(t0));
        lemma_trees_push(stack@, t0);
        lemma_trees_push(stack@, top);
        lemma_trees(s0);
    }
    stack.push(top);
    proof {
        assert(trees(stack@) =~= add_text(trees(s0), v@.subrange(a as int, b as int)));
    }
}

/// Appends `c` to the children of the innermost open element.
fn top_add_child(stack: &mut Vec<Node>, c: Node)
    requires
        old(stack)@.len() >= 1,
    ensures
        final(stack)@.len() == old(stack)@.len(),
        trees(final(stack)@) == add_child(trees(old(stack)@), tree(c)),
{
    let ghost s0 = stack@;
    let mut top = stack.pop().unwrap();
    let ghost t0 = top;
    let ghost ch0 = top.children@;
    top.children.push(c);
    proof {
        assert(s0 == stack@.push(t0));
        lemma_trees_push(stack@, t0);
        lemma_trees_push(stack@, top);
        lemma_trees_push(ch0, c);
        lemma_trees(s0);
    }
    stack.push(top);
    proof {
        assert(trees(stack@) =~= add_child(trees(s0), tree(c)));
    }
}

/// Closes open elements, each into its parent, until `pos` remain.
fn close_stack(stack: &mut Vec<Node>, pos: usize)
    requires
        old(stack)@.len() >= 1,
        pos >= 1,
    ensures
        final(stack)@.len() >= 1,
        trees(final(stack)@) == close_to(trees(old(stack)@), pos as int),
{
    while stack.len() > pos
        invariant
            stack@.len() >= 1,
            pos >= 1,
            close_to(trees(old(stack)@), pos as int) == close_to(trees(stack@), pos as int),
        decreases stack@.len(),
    {
        let ghost s0 = stack@;
        let n = stack.pop().unwrap();
        proof {
            assert(s0 == stack@.push(n));
            lemma_trees_push(stack@, n);
            lemma_trees(s0);
            lemma_trees(stack@);
        }
        let ghost mid = stack@;
        top_add_child(stack, n);
        proof {
            let t0 = trees(s0);
            assert(t0.len() > pos as int);
            assert(t0.drop_last() == trees(mid));
            assert(t0.last() == tree(n));
            assert(close_to(t0, pos as int) == close_to(add_child(t0.drop_last(), t0.last()), pos as int));
        }
    }
    proof {
        lemma_trees(stack@);
    }
}


proof fn lemma_run_step(s: Seq<char>, i: int, st: Seq<Tree>)
    requires
        0 <= i < s.len(),
        st.len() > 0,
        parse_step(s, i, st).0 > i,
    ensures
        parse_run(s, i, st) == parse_run(s, parse_step(s, i, st).0, parse_step(s, i, st).1),
{
}

/// A closing tag at `i`: closes the innermost open element with its name and everything opened
/// after it (a stray closer is ignored). Returns where reading goes on.
fn close_tag(stack: &mut Vec<Node>, v: &[char], i: usize) -> (j: usize)
    requires
        old(stack)@.len() >= 1,
        starts(v@, i as int, seq!['<', '/']),
    ensures
        final(stack)@.len() >= 1,
        i < j <= v@.len(),
        ({
            let p = find_char(v@, i + 2, '>');
            let end = if p < 0 { v@.len() as int } else { p };
            let pos = last_named(trees(old(stack)@), trim(v@.subrange(i + 2, end)));
            &&& trees(final(stack)@) == if pos > 0 { close_to(trees(old(stack)@), pos) } else { trees(old(stack)@) }
            &&& (j == end + 1 || (j == v@.len() && end + 1 > v@.len()))
        }),
{
    let n = v.len();
    let p = find_in(v, i + 2, n, '>');
    proof {
        lemma_find_char(v@, i + 2, '>', p as int);
    }
    let seg = crate::text::sub_chars(v, i + 2, p);
    let (a, b) = trim_bounds(seg.as_slice());
    let name = crate::text::sub_chars(seg.as_slice(), a, b);
    let pos = last_named_at(stack, name.as_slice());
    if pos < stack.len() && pos > 0 {
        close_stack(stack, pos);
    }
    if p < n {
        p + 1
    } else {
        n
    }
}

/// An opening tag at `i`: a self-closing element becomes a child of the innermost open element,
/// any other is opened. Returns where reading goes on.
fn open_tag(stack: &mut Vec<Node>, v: &[char], i: usize) -> (j: usize)
    requires
        old(stack)@.len() >= 1,
        i + 1 < v@.len(),
    ensures
        final(stack)@.len() >= 1,
        i < j <= v@.len(),
        ({
            let n = v@.len() as int;
            let ne = name_end(v@, i + 1);
            let te = tag_end(v@, ne, None);
            let node = leaf(v@.subrange(i + 1, ne), attr_list(v@.subrange(ne, te)));
            &&& trees(final(stack)@) == if te < n && v@[te - 1] == '/' {
                add_child(trees(old(stack)@), node)
            } else {
                trees(old(stack)@).push(node)
            }
            &&& (j == te + 1 || (j == n && te + 1 > n))
        }),
{
    let n = v.len();
    let ne = name_end_at(v, i + 1);
    let te = tag_end_at(v, ne);
    let name = crate::text::string_of_range(v, i + 1, ne);
    let attrs = attr_names(v, ne, te);
    let node = Node { name, text: String::new(), children: Vec::new(), attrs };
    proof {
        assert(node.children@ =~= Seq::<Node>::empty());
        assert(trees(node.children@) == Seq::<Tree>::empty());
        assert(tree(node) == leaf(v@.subrange(i + 1, ne as int), attr_list(v@.subrange(ne as int, te as int))));
    }
    if te < n && v[te - 1] == '/' {
        top_add_child(stack, node);
    } else {
        let ghost s0 = stack@;
        stack.push(node);
        proof {
            lemma_trees_push(s0, node);
        }
    }
    if te < n {
        te + 1
    } else {
        n
    }
}

/// One step of the reader at `i`; returns where reading goes on.
#[verifier::rlimit(60)]
fn parse_one(stack: &mut Vec<Node>, v: &[char], i: usize) -> (j: usize)
    requires
        old(stack)@.len() >= 1,
        i < v@.len(),
    ensures
        final(stack)@.len() >= 1,
        i < j <= v@.len(),
        trees(final(stack)@) == parse_step(v@, i as int, trees(old(stack)@)).1,
        j as int == parse_step(v@, i as int, trees(old(stack)@)).0 || (j == v@.len() && parse_step(
            v@,
            i as int,
            trees(old(stack)@),
        ).0 >= v@.len()),
{
    let n = v.len();
    if v[i] != '<' {
        let e = find_in(v, i, n, '<');
        proof {
            lemma_find_char(v@, i as int, '<', e as int);
        }
        top_text_unescaped(stack, v, i, e);
        e
    } else if starts_with_at(v, i, &['<', '!', '-', '-']) {
        let p = find_pat(v, i, &['-', '-', '>']);
        if p < n {
            p + 3
        } else {
            n
        }
    } else if starts_with_at(v, i, &['<', '!', '[', 'C', 'D', 'A', 'T', 'A', '[']) {
        let p = find_pat(v, i + 9, &[']', ']', '>']);
        top_text_raw(stack, v, i + 9, p);
        if p < n {
            p + 3
        } else {
            n
        }
    } else if starts_with_at(v, i, &['<', '?']) {
        let p = find_pat(v, i, &['?', '>']);
        if p < n {
            p + 2
        } else {
            n
        }
    } else if starts_with_at(v, i, &['<', '!']) {
        let p = find_in(v, i, n, '>');
        proof {
            lemma_find_char(v@, i as int, '>', p as int);
        }
        if p < n {
            p + 1
        } else {
            n
        }
    } else if starts_with_at(v, i, &['<', '/']) {
        close_tag(stack, v, i)
    } else if i + 1 < n && is_name_start(v[i + 1]) {
        open_tag(stack, v, i)
    } else {
        let lt = vec!['<'];
        top_text_raw(stack, lt.as_slice(), 0, 1);
        proof {
            assert(lt@.subrange(0, 1) =~= seq!['<']);
        }
        i + 1
    }
}

/// Parse to a tree. Returns a synthetic root whose children are the top-level elements.
pub fn parse(src: &str) -> (r: Node)
    ensures
        tree(r) == parse_tree(src@),
{
    let v = chars_of(src);
    let n = v.len();
    let mut stack: Vec<Node> = Vec::new();
    let root = Node::new("#root");
    stack.push(root);
    proof {
        lemma_trees_push(Seq::empty(), root);
        assert(trees(Seq::<Node>::empty()) == Seq::<Tree>::empty());
        assert(root.children@ =~= Seq::<Node>::empty());
        assert(sv(root.attrs@) =~= Seq::<Seq<char>>::empty());
        assert(tree(root) == root_tree());
        assert(trees(stack@) =~= seq![root_tree()]);
    }
    let mut i: usize = 0;
    while i < n
        invariant
            v@ == src@,
            n == v@.len(),
            stack@.len() >= 1,
            parse_run(v@, 0, seq![root_tree()]) == parse_run(v@, i as int, trees(stack@)),
        decreases n - i,
    {
        let ghost st = trees(stack@);
        proof {
            lemma_trees(stack@);
        }
        let j = parse_one(&mut stack, v.as_slice(), i);
        proof {
            lemma_run_step(v@, i as int, st);
            lemma_trees(stack@);
        }
        i = j;
    }
    let ghost before = trees(stack@);
    proof {
        lemma_trees(stack@);
        assert(parse_run(v@, 0, seq![root_tree()]) == before);
    }
    close_stack(&mut stack, 1);
    proof {
        lemma_trees(stack@);
        lemma_close_to_one(before);
    }
    let r = stack.pop().unwrap();
    r
}

proof fn lemma_close_to_one(st: Seq<Tree>)
    requires
        st.len() >= 1,
    ensures
        close_to(st, 1).len() == 1,
    decreases st.len(),
{
    if st.len() > 1 {
        lemma_close_to_one(add_child(st.drop_last(), st.last()));
    }
}

/// `s` with `&`, `<` and `>` written as entity references.
pub open spec fn escaped(s: Seq<char>) -> Seq<char>
    decreases s.len(),
{
    if s.len() == 0 {
        Seq::empty()
    } else {
        let c = s.last();
        escaped(s.drop_last()) + if c == '&' {
            seq!['&', 'a', 'm', 'p', ';']
        } else if c == '<' {
            seq!['&', 'l', 't', ';']
        } else if c == '>' {
            seq!['&', 'g', 't', ';']
        } else {
            seq![c]
        }
    }
}

/// `s` with `&`, `<` and `>` written as entity references.
fn escape(s: &str) -> (r: String)
    ensures
        r@ == escaped(s@),
{
    let v = chars_of(s);
    let mut r = String::new();
    let mut i: usize = 0;
    while i < v.len()
        invariant
            0 <= i <= v@.len(),
            v@ == s@,
            r@ == escaped(v@.take(i as int)),
        decreases v@.len() - i,
    {
        let c = v[i];
        proof {
            assert(v@.take(i + 1).drop_last() == v@.take(i as int));
            assert(v@.take(i + 1).last() == c);
        }
        if c == '&' {
            r.append("&amp;");
            proof {
                reveal_strlit("&amp;");
            }
        } else if c == '<' {
            r.append("&lt;");
            proof {
                reveal_strlit("&lt;");
            }
        } else if c == '>' {
            r.append("&gt;");
            proof {
                reveal_strlit("&gt;");
            }
        } else {
            crate::text::push_char(&mut r, c);
        }
        proof {
            assert(r@ =~= escaped(v@.take(i + 1)));
        }
        i += 1;
    }
    proof {
        assert(v@.take(i as int) == v@);
    }
    r
}

/// Two spaces per level.
pub open spec fn pad(depth: int) -> Seq<char> {
    Seq::new((2 * depth) as nat, |i: int| ' ')
}

/// An element written at indentation `depth`: a leaf on one line (`<n/>` when its trimmed
/// text is empty), otherwise its children one level deeper between its tags.
pub open spec fn render(t: Tree, depth: int) -> Seq<char>
    decreases t,
{
    if t.children.len() == 0 {
        let x = trim(t.text);
        if x.len() == 0 {
            pad(depth) + seq!['<'] + t.name + seq!['/', '>', '\n']
        } else {
            pad(depth) + seq!['<'] + t.name + seq!['>'] + escaped(x) + seq!['<', '/'] + t.name + seq!['>', '\n']
        }
    } else {
        pad(depth) + seq!['<'] + t.name + seq!['>', '\n'] + render_all(t.children, depth + 1) + pad(depth)
            + seq!['<', '/'] + t.name + seq!['>', '\n']
    }
}

/// Elements written one after the other at indentation `depth`.
pub open spec fn render_all(cs: Seq<Tree>, depth: int) -> Seq<char>
    decreases cs,
{
    if cs.len() == 0 {
        Seq::empty()
    } else {
        render_all(cs.drop_last(), depth) + render(cs.last(), depth)
    }
}

/// The XML declaration line.
pub open spec fn xml_header() -> Seq<char> {
    "<?xml version=\"1.0\" encoding=\"utf-8\"?>\n"@
}

/// Appends `s`.
fn push_chars(out: &mut String, s: &[char])
    ensures
        final(out)@ == old(out)@ + s@,
{
    let mut i: usize = 0;
    while i < s.len()
        invariant
            0 <= i <= s@.len(),
            out@ == old(out)@ + s@.take(i as int),
        decreases s@.len() - i,
    {
        crate::text::push_char(out, s[i]);
        proof {
            assert(s@.take(i + 1) == s@.take(i as int).push(s@[i as int]));
        }
        i += 1;
    }
    proof {
        assert(s@.take(i as int) == s@);
    }
}

/// Appends the indentation for `depth`.
fn push_pad(out: &mut String, depth: usize)
    requires
        depth < usize::MAX / 2,
    ensures
        final(out)@ == old(out)@ + pad(depth as int),
{
    let mut i: usize = 0;
    while i < 2 * depth
        invariant
            0 <= i <= 2 * depth,
            depth < usize::MAX / 2,
            out@ == old(out)@ + Seq::new(i as nat, |k: int| ' '),
        decreases 2 * depth - i,
    {
        crate::text::push_char(out, ' ');
        proof {
            assert(Seq::new((i + 1) as nat, |k: int| ' ') =~= Seq::new(i as nat, |k: int| ' ').push(' '));
        }
        i += 1;
    }
}

/// Writes `n` at indentation `depth`.
fn write_node(n: &Node, depth: usize, out: &mut String)
    requires
        depth < usize::MAX / 2 - 1,
        depth + node_depth(tree(*n)) < usize::MAX / 2 - 1,
    ensures
        final(out)@ == old(out)@ + render(tree(*n), depth as int),
    decreases *n,
{
    proof {
        lemma_trees(n.children@);
    }
    let name = chars_of(n.name.as_str());
    if n.children.len() == 0 {
        let t = n.trimmed();
        push_pad(out, depth);
        push_chars(out, &['<']);
        push_chars(out, name.as_slice());
        if t.unicode_len() == 0 {
            push_chars(out, &['/', '>', '\n']);
        } else {
            push_chars(out, &['>']);
            let e = escape(t);
            out.append(e.as_str());
            push_chars(out, &['<', '/']);
            push_chars(out, name.as_slice());
            push_chars(out, &['>', '\n']);
        }
        proof {
            assert(tree(*n).children.len() == 0);
        }
    } else {
        push_pad(out, depth);
        push_chars(out, &['<']);
        push_chars(out, name.as_slice());
        push_chars(out, &['>', '\n']);
        let ghost o1 = out@;
        let ghost cs = tree(*n).children;
        let mut k: usize = 0;
        proof {
            assert(cs.take(0) =~= Seq::<Tree>::empty());
        }
        while k < n.children.len()
            invariant
                0 <= k <= n.children@.len(),
                cs == tree(*n).children,
                cs.len() == n.children@.len(),
                forall|x: int| 0 <= x < n.children@.len() ==> #[trigger] cs[x] == tree(n.children@[x]),
                depth < usize::MAX / 2 - 1,
                depth + node_depth(tree(*n)) < usize::MAX / 2 - 1,
                out@ == o1 + render_all(cs.take(k as int), depth + 1),
            decreases n.children@.len() - k,
        {
            proof {
                assert(cs.take(k + 1).drop_last() == cs.take(k as int));
                assert(cs.take(k + 1).last() == tree(n.children@[k as int]));
                lemma_child_depth(tree(*n), k as int);
                assert(decreases_to!(*n => n.children));
                assert(decreases_to!(n.children => n.children@));
                assert(decreases_to!(n.children@ => n.children@[k as int]));
            }
            write_node(&n.children[k], depth + 1, out);
            k += 1;
        }
        proof {
            assert(cs.take(k as int) == cs);
        }
        push_pad(out, depth);
        push_chars(out, &['<', '/']);
        push_chars(out, name.as_slice());
        push_chars(out, &['>', '\n']);
    }
}

/// Nesting depth of a tree.
pub open spec fn node_depth(t: Tree) -> nat
    decreases t,
{
    if t.children.len() == 0 {
        0
    } else {
        1 + depth_all(t.children)
    }
}

/// Largest nesting depth among trees.
pub open spec fn depth_all(cs: Seq<Tree>) -> nat
    decreases cs,
{
    if cs.len() == 0 {
        0
    } else {
        let a = depth_all(cs.drop_last());
        let b = node_depth(cs.last());
        if a > b {
            a
        } else {
            b
        }
    }
}

pub proof fn lemma_depth_all(cs: Seq<Tree>, k: int)
    requires
        0 <= k < cs.len(),
    ensures
        node_depth(cs[k]) <= depth_all(cs),
    decreases cs.len(),
{
    if k < cs.len() - 1 {
        lemma_depth_all(cs.drop_last(), k);
        assert(cs.drop_last()[k] == cs[k]);
    }
}

proof fn lemma_child_depth(t: Tree, k: int)
    requires
        0 <= k < t.children.len(),
    ensures
        node_depth(t.children[k]) + 1 <= node_depth(t),
{
    lemma_depth_all(t.children, k);
}

/// A list whose elements are all at most `b` deep is at most `b` deep.
pub proof fn lemma_depth_all_bound(cs: Seq<Tree>, b: nat)
    requires
        forall|k: int| 0 <= k < cs.len() ==> node_depth(#[trigger] cs[k]) <= b,
    ensures
        depth_all(cs) <= b,
    decreases cs.len(),
{
    if cs.len() > 0 {
        assert forall|k: int| 0 <= k < cs.drop_last().len() implies node_depth(#[trigger] cs.drop_last()[k]) <= b by {
            assert(cs.drop_last()[k] == cs[k]);
        }
        lemma_depth_all_bound(cs.drop_last(), b);
        assert(node_depth(cs[cs.len() - 1]) <= b);
    }
}

/// Serialize with 2-space indent (RimWorld style). Leaf text nodes stay on one line.
pub fn write(node: &Node) -> (r: String)
    requires
        node_depth(tree(*node)) < usize::MAX / 2 - 1,
    ensures
        r@ == xml_header() + render(tree(*node), 0),
{
    let mut out = String::from_str("<?xml version=\"1.0\" encoding=\"utf-8\"?>\n");
    write_node(node, 0, &mut out);
    out
}

/// The byte-order mark at the start of `b`: 0 for UTF-8 (3 bytes), 1 for UTF-16LE and 2 for
/// UTF-16BE (2 bytes each).
pub open spec fn bom_of(b: Seq<u8>) -> Option<(u8, usize)> {
    if b.len() >= 3 && b[0] == 0xEF && b[1] == 0xBB && b[2] == 0xBF {
        Some((0, 3))
    } else if b.len() >= 2 && b[0] == 0xFF && b[1] == 0xFE {
        Some((1, 2))
    } else if b.len() >= 2 && b[0] == 0xFE && b[1] == 0xFF {
        Some((2, 2))
    } else {
        None
    }
}

/// What `Encoding::decode_without_bom_handling` of encoding_rs gives for the bytes `b` in the
/// encoding numbered `enc` (0 UTF-8, 1 UTF-16LE, 2 UTF-16BE; malformed input is replaced).
pub uninterp spec fn bom_decoded(enc: u8, b: Seq<u8>) -> Seq<char>;

/// What `std::str::from_utf8` gives for `b`: the text when `b` is valid UTF-8.
pub uninterp spec fn utf8_decoded(b: Seq<u8>) -> Option<Seq<char>>;

/// What encoding_rs's `WINDOWS_1252.decode` gives for `b`.
pub uninterp spec fn cp1252_decoded(b: Seq<u8>) -> Seq<char>;

/// Calls `encoding_rs::Encoding::for_bom`, whose source checks for the UTF-8 byte-order mark
/// (EF BB BF) and then the UTF-16LE (FF FE) and UTF-16BE (FE FF) ones, returning the encoding
/// and the mark's length; the encoding is returned here by number.
#[verifier::external_body]
fn sniff_bom(b: &[u8]) -> (r: Option<(u8, usize)>)
    ensures
        r == bom_of(b@),
{
    match encoding_rs::Encoding::for_bom(b) {
        Some((enc, len)) if enc == encoding_rs::UTF_8 => Some((0, len)),
        Some((enc, len)) if enc == encoding_rs::UTF_16LE => Some((1, len)),
        Some((_, len)) => Some((2, len)),
        None => None,
    }
}

/// Calls `Encoding::decode_without_bom_handling` of encoding_rs on `b[from..]` for the
/// encoding numbered `enc`; the text is named `bom_decoded(enc, ..)`.
#[verifier::external_body]
fn decode_after_bom(enc: u8, b: &[u8], from: usize) -> (r: String)
    requires
        from <= b@.len(),
    ensures
        r@ == bom_decoded(enc, b@.subrange(from as int, b@.len() as int)),
{
    let e = match enc {
        0 => encoding_rs::UTF_8,
        1 => encoding_rs::UTF_16LE,
        _ => encoding_rs::UTF_16BE,
    };
    e.decode_without_bom_handling(&b[from..]).0.into_owned()
}

/// Calls `std::str::from_utf8`; the result is named `utf8_decoded(b)`.
#[verifier::external_body]
fn from_utf8(b: &[u8]) -> (r: Option<String>)
    ensures
        r matches Some(s) ==> utf8_decoded(b@) == Some(s@),
        r is None ==> utf8_decoded(b@) is None,
{
    match std::str::from_utf8(b) {
        Ok(s) => Some(s.to_owned()),
        Err(_) => None,
    }
}

/// Calls encoding_rs's `WINDOWS_1252.decode`; the text is named `cp1252_decoded(b)`.
#[verifier::external_body]
fn decode_cp1252(b: &[u8]) -> (r: String)
    ensures
        r@ == cp1252_decoded(b@),
{
    encoding_rs::WINDOWS_1252.decode(b).0.into_owned()
}

/// The text of bytes of unknown encoding: after a byte-order mark in its encoding, else UTF-8
/// when valid, else Windows-1252.
pub open spec fn decoded_text(b: Seq<u8>) -> Seq<char> {
    match bom_of(b) {
        Some(m) => bom_decoded(m.0, b.subrange(m.1 as int, b.len() as int)),
        None => match utf8_decoded(b) {
            Some(t) => t,
            None => cp1252_decoded(b),
        },
    }
}

/// Decode bytes of unknown encoding (BOM sniffing, UTF-8, else Windows-1252) to a string.
pub fn decode_bytes(bytes: &[u8]) -> (r: String)
    ensures
        r@ == decoded_text(bytes@),
{
    match sniff_bom(bytes) {
        Some((enc, len)) => decode_after_bom(enc, bytes, len),
        None => match from_utf8(bytes) {
            Some(s) => s,
            None => decode_cp1252(bytes),
        },
    }
}

} // verus!

verus! {

pub proof fn lemma_find_char_pub(s: Seq<char>, from: int, c: char, r: int)
    requires
        0 <= from <= r <= s.len(),
        r < s.len() ==> s[r] == c,
        forall|k: int| from <= k < r ==> s[k] != c,
    ensures
        find_char(s, from, c) == if r < s.len() { r } else { -1 },
{
    lemma_find_char(s, from, c, r);
}

} // verus!

verus! {

/// Position of the first tree of `cs` named `name`, ASCII case-insensitive (-1 if none).
pub open spec fn first_named_tree(cs: Seq<Tree>, name: Seq<char>) -> int
    decreases cs.len(),
{
    if cs.len() == 0 {
        -1
    } else {
        let r = first_named_tree(cs.drop_last(), name);
        if r >= 0 {
            r
        } else if eq_ignore_case(cs.last().name, name) {
            cs.len() - 1
        } else {
            -1
        }
    }
}

/// Trimmed, non-empty texts of the `li` trees of `cs` that `li_kept_tree` admits.
pub open spec fn li_values_tree(cs: Seq<Tree>, rimsort: bool) -> Seq<Seq<char>>
    decreases cs.len(),
{
    if cs.len() == 0 {
        Seq::empty()
    } else {
        let r = li_values_tree(cs.drop_last(), rimsort);
        let c = cs.last();
        if li_kept_tree(c, rimsort) && trim(c.text).len() > 0 {
            r.push(trim(c.text))
        } else {
            r
        }
    }
}

/// `li_kept` on trees.
pub open spec fn li_kept_tree(c: Tree, rimsort: bool) -> bool {
    &&& eq_ignore_case(c.name, seq!['l', 'i'])
    &&& (!rimsort || c.attrs.len() == 0 || c.attrs == seq![ignore_attr()])
}

pub proof fn lemma_named_trees(cs: Seq<Node>, name: Seq<char>, rimsort: bool)
    ensures
        first_named(cs, name) == first_named_tree(trees(cs), name),
        li_values(cs, rimsort) == li_values_tree(trees(cs), rimsort),
        trees(cs).len() == cs.len(),
        forall|k: int| 0 <= k < cs.len() ==> #[trigger] trees(cs)[k] == tree(cs[k]),
    decreases cs.len(),
{
    lemma_trees(cs);
    if cs.len() > 0 {
        lemma_named_trees(cs.drop_last(), name, rimsort);
        assert(trees(cs).drop_last() == trees(cs.drop_last()));
        assert(trees(cs).last() == tree(cs.last()));
    }
}

impl Node {
    /// A copy of the element and everything below it.
    pub fn copy(&self) -> (r: Node)
        ensures
            tree(r) == tree(*self),
        decreases *self,
    {
        proof {
            lemma_trees(self.children@);
        }
        let mut children: Vec<Node> = Vec::new();
        let mut k: usize = 0;
        while k < self.children.len()
            invariant
                0 <= k <= self.children@.len(),
                trees(children@) == trees(self.children@).take(k as int),
                trees(self.children@).len() == self.children@.len(),
                forall|x: int| 0 <= x < self.children@.len() ==> #[trigger] trees(self.children@)[x] == tree(self.children@[x]),
            decreases self.children@.len() - k,
        {
            proof {
                assert(decreases_to!(*self => self.children));
                assert(decreases_to!(self.children => self.children@));
                assert(decreases_to!(self.children@ => self.children@[k as int]));
            }
            let c = self.children[k].copy();
            let ghost c0 = children@;
            children.push(c);
            proof {
                lemma_trees_push(c0, c);
                assert(trees(self.children@).take(k + 1) == trees(self.children@).take(k as int).push(tree(self.children@[k as int])));
            }
            k += 1;
        }
        proof {
            assert(trees(self.children@).take(k as int) == trees(self.children@));
        }
        let attrs = crate::text::clone_strings(&self.attrs);
        Node { name: self.name.clone(), text: self.text.clone(), children, attrs }
    }
}


/// The outermost open element is still the synthetic root.
pub open spec fn rooted(st: Seq<Tree>) -> bool {
    st.len() >= 1 && st[0].name == "#root"@ && st[0].attrs.len() == 0
}

proof fn lemma_close_to_rooted(st: Seq<Tree>, pos: int)
    requires
        rooted(st),
    ensures
        rooted(close_to(st, pos)),
    decreases st.len(),
{
    if !(st.len() <= pos || st.len() <= 1) {
        let d = add_child(st.drop_last(), st.last());
        assert(d[0].name == st[0].name && d[0].attrs == st[0].attrs);
        lemma_close_to_rooted(d, pos);
    }
}

proof fn lemma_step_rooted(s: Seq<char>, i: int, st: Seq<Tree>)
    requires
        rooted(st),
        0 <= i < s.len(),
    ensures
        rooted(parse_step(s, i, st).1),
{
    let r = parse_step(s, i, st).1;
    if starts(s, i, seq!['<', '/']) && s[i] == '<' && !starts(s, i, seq!['<', '!', '-', '-'])
        && !starts(s, i, seq!['<', '!', '[', 'C', 'D', 'A', 'T', 'A', '[']) && !starts(s, i, seq!['<', '?'])
        && !starts(s, i, seq!['<', '!']) {
        let n = s.len() as int;
        let p = find_char(s, i + 2, '>');
        let end = if p < 0 { n } else { p };
        let pos = last_named(st, trim(s.subrange(i + 2, end)));
        if pos > 0 {
            lemma_close_to_rooted(st, pos);
        }
    }
    assert(r.len() >= 1);
    assert(r[0].name == "#root"@);
}

proof fn lemma_run_rooted(s: Seq<char>, i: int, st: Seq<Tree>)
    requires
        rooted(st),
    ensures
        rooted(parse_run(s, i, st)),
    decreases s.len() - i,
{
    if !(i < 0 || i >= s.len() || st.len() == 0) {
        let r = parse_step(s, i, st);
        lemma_step_rooted(s, i, st);
        if !(r.0 <= i || r.0 >= s.len()) {
            lemma_run_rooted(s, r.0, r.1);
        }
    }
}

/// Whatever the text, `parse` gives the synthetic root `#root`, without attributes; and text
/// without any `<` holds no element, so the root has no children.
pub proof fn law_parse_root(src: Seq<char>)
    ensures
        parse_tree(src).name == "#root"@,
        parse_tree(src).attrs.len() == 0,
        !src.contains('<') ==> parse_tree(src).children.len() == 0,
{
    let st0 = seq![root_tree()];
    assert(rooted(st0));
    lemma_run_rooted(src, 0, st0);
    lemma_close_to_rooted(parse_run(src, 0, st0), 1);
    if !src.contains('<') && src.len() > 0 {
        assert forall|k: int| 0 <= k < src.len() implies src[k] != '<' by {
            if src[k] == '<' {
                assert(src.contains('<'));
            }
        }
        lemma_find_char_pub(src, 0, '<', src.len() as int);
        assert(src[0] != '<');
        let r = parse_step(src, 0, st0);
        assert(r.0 == src.len());
        assert(parse_run(src, 0, st0) == r.1);
        assert(r.1.len() == 1);
        assert(r.1[0].children == st0[0].children);
    }
}

} // verus!
