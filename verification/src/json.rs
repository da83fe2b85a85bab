//! JSON documents as plain values, read and written through `serde_json`.

use vstd::prelude::*;

use crate::xml::{all_digits, digits_value};

verus! {

broadcast use vstd::string::group_string_axioms;

/// `serde_json::Value`, carried through opaque.
#[verifier::external_type_specification]
#[verifier::external_body]
pub struct ExJsonValue(serde_json::Value);

/// A JSON value. Numbers keep the text `serde_json` prints for them; object members come in
/// the order `serde_json` keeps them (sorted by key).
#[derive(Debug)]
pub enum Json {
    Null,
    Bool(bool),
    Number(String),
    Str(String),
    Array(Vec<Json>),
    Object(Vec<(String, Json)>),
}

/// The mathematical JSON value: what a `Json` holds.
pub enum JsonV {
    Null,
    Bool(bool),
    Number(Seq<char>),
    Str(Seq<char>),
    Array(Seq<JsonV>),
    Object(Seq<(Seq<char>, JsonV)>),
}

/// The value a `Json` holds.
pub open spec fn jv(j: Json) -> JsonV
    decreases j,
{
    match j {
        Json::Null => JsonV::Null,
        Json::Bool(b) => JsonV::Bool(b),
        Json::Number(t) => JsonV::Number(t@),
        Json::Str(t) => JsonV::Str(t@),
        Json::Array(a) => JsonV::Array(jvs(a@)),
        Json::Object(o) => JsonV::Object(jmembers(o@)),
    }
}

/// The values of a list.
pub open spec fn jvs(a: Seq<Json>) -> Seq<JsonV>
    decreases a,
{
    if a.len() == 0 {
        Seq::empty()
    } else {
        jvs(a.drop_last()).push(jv(a.last()))
    }
}

/// The members of an object.
pub open spec fn jmembers(o: Seq<(String, Json)>) -> Seq<(Seq<char>, JsonV)>
    decreases o,
{
    if o.len() == 0 {
        Seq::empty()
    } else {
        jmembers(o.drop_last()).push((o.last().0@, jv(o.last().1)))
    }
}

impl View for Json {
    type V = JsonV;

    open spec fn view(&self) -> JsonV {
        jv(*self)
    }
}

/// `jvs` keeps positions.
pub proof fn lemma_jvs(a: Seq<Json>)
    ensures
        jvs(a).len() == a.len(),
        forall|i: int| 0 <= i < a.len() ==> #[trigger] jvs(a)[i] == jv(a[i]),
    decreases a.len(),
{
    if a.len() > 0 {
        lemma_jvs(a.drop_last());
        assert forall|i: int| 0 <= i < a.len() implies #[trigger] jvs(a)[i] == jv(a[i]) by {
            if i < a.len() - 1 {
                assert(a.drop_last()[i] == a[i]);
            }
        }
    }
}

/// `jmembers` keeps positions.
pub proof fn lemma_jmembers(o: Seq<(String, Json)>)
    ensures
        jmembers(o).len() == o.len(),
        forall|i: int| 0 <= i < o.len() ==> #[trigger] jmembers(o)[i] == (o[i].0@, jv(o[i].1)),
    decreases o.len(),
{
    if o.len() > 0 {
        lemma_jmembers(o.drop_last());
        assert forall|i: int| 0 <= i < o.len() implies #[trigger] jmembers(o)[i] == (o[i].0@, jv(o[i].1)) by {
            if i < o.len() - 1 {
                assert(o.drop_last()[i] == o[i]);
            }
        }
    }
}

/// The members of a two-member list.
pub proof fn lemma_jmembers_two(s: Seq<(String, Json)>)
    requires
        s.len() == 2,
    ensures
        jmembers(s) == seq![(s[0].0@, jv(s[0].1)), (s[1].0@, jv(s[1].1))],
{
    assert(s.drop_last().drop_last() == Seq::<(String, Json)>::empty());
    assert(jmembers(s.drop_last().drop_last()) == Seq::<(Seq<char>, JsonV)>::empty());
    assert(s.drop_last().last() == s[0]);
    assert(jmembers(s.drop_last()) == seq![(s[0].0@, jv(s[0].1))]);
    assert(jmembers(s) =~= seq![(s[0].0@, jv(s[0].1)), (s[1].0@, jv(s[1].1))]);
}

/// The members of a three-member list.
pub proof fn lemma_jmembers_three(s: Seq<(String, Json)>)
    requires
        s.len() == 3,
    ensures
        jmembers(s) == seq![(s[0].0@, jv(s[0].1)), (s[1].0@, jv(s[1].1)), (s[2].0@, jv(s[2].1))],
{
    lemma_jmembers_two(s.drop_last());
    assert(s.drop_last()[0] == s[0]);
    assert(s.drop_last()[1] == s[1]);
    assert(jmembers(s) =~= seq![(s[0].0@, jv(s[0].1)), (s[1].0@, jv(s[1].1)), (s[2].0@, jv(s[2].1))]);
}

/// What `serde_json` reads from `text` as a `Value`, or `None` where it reports an error.
pub uninterp spec fn json_doc(text: Seq<char>) -> Option<JsonV>;

/// What `serde_json::to_string_pretty` prints for the value, once each member is converted to a
/// `serde_json::Value` as `to_value` does (a number from its text as `serde_json` reads it, and
/// `null` for number text it does not read).
pub uninterp spec fn json_pretty(j: JsonV) -> Seq<char>;

/// Converts a `serde_json::Value` member by member.
#[verifier::external_body]
fn from_value(v: serde_json::Value) -> Json {
    match v {
        serde_json::Value::Null => Json::Null,
        serde_json::Value::Bool(b) => Json::Bool(b),
        serde_json::Value::Number(n) => Json::Number(n.to_string()),
        serde_json::Value::String(s) => Json::Str(s),
        serde_json::Value::Array(a) => Json::Array(a.into_iter().map(from_value).collect()),
        serde_json::Value::Object(o) => Json::Object(o.into_iter().map(|(k, x)| (k, from_value(x))).collect()),
    }
}

/// Converts back to a `serde_json::Value` member by member (a number from its text).
#[verifier::external_body]
fn to_value(j: &Json) -> serde_json::Value {
    match j {
        Json::Null => serde_json::Value::Null,
        Json::Bool(b) => serde_json::Value::Bool(*b),
        Json::Number(t) => serde_json::from_str(t).unwrap_or(serde_json::Value::Null),
        Json::Str(s) => serde_json::Value::String(s.clone()),
        Json::Array(a) => serde_json::Value::Array(a.iter().map(to_value).collect()),
        Json::Object(o) => serde_json::Value::Object(o.iter().map(|(k, x)| (k.clone(), to_value(x))).collect()),
    }
}

/// Calls `serde_json::from_str::<Value>`: the document is `json_doc(text)`; on an error the
/// message is `serde_json`'s, of which nothing is claimed.
#[verifier::external_body]
pub(crate) fn parse_json(text: &str) -> (r: Result<Json, String>)
    ensures
        match r {
            Ok(j) => json_doc(text@) == Some(j@),
            Err(_) => json_doc(text@) is None,
        },
{
    serde_json::from_str::<serde_json::Value>(text).map(from_value).map_err(|e| e.to_string())
}

/// Calls `serde_json::to_string_pretty` on the value. Claimed: the text always comes back, and
/// it is `json_pretty(j@)`. The source shows that serialising a `Value` cannot fail: its
/// `Serialize` impl only forwards each variant to the serializer (object keys are strings,
/// non-finite numbers are written as `null`), and the pretty serializer writes into a `Vec`,
/// which reports no error.
#[verifier::external_body]
pub(crate) fn to_pretty(j: &Json) -> (r: Option<String>)
    ensures
        r is Some,
        r matches Some(t) ==> t@ == json_pretty(j@),
{
    serde_json::to_string_pretty(&to_value(j)).ok()
}

/// The first member named `k`.
pub open spec fn lookup(e: Seq<(Seq<char>, JsonV)>, k: Seq<char>) -> Option<JsonV>
    decreases e.len(),
{
    if e.len() == 0 {
        None
    } else if e[0].0 == k {
        Some(e[0].1)
    } else {
        lookup(e.drop_first(), k)
    }
}

/// `j[k]` for an object, `None` otherwise.
pub open spec fn field(j: JsonV, k: Seq<char>) -> Option<JsonV> {
    match j {
        JsonV::Object(e) => lookup(e, k),
        _ => None,
    }
}

/// The optional value's field `k`.
pub open spec fn field_of(j: Option<JsonV>, k: Seq<char>) -> Option<JsonV> {
    match j {
        Some(v) => field(v, k),
        None => None,
    }
}

/// A boolean value.
pub open spec fn bool_of(j: Option<JsonV>) -> Option<bool> {
    match j {
        Some(JsonV::Bool(b)) => Some(b),
        _ => None,
    }
}

/// A string value.
pub open spec fn str_of(j: Option<JsonV>) -> Option<Seq<char>> {
    match j {
        Some(JsonV::Str(s)) => Some(s),
        _ => None,
    }
}

/// The integer a number's text spells: an optional `-` and one or more digits.
pub open spec fn int_of_text(t: Seq<char>) -> Option<int> {
    if t.len() > 0 && t[0] == '-' {
        let d = t.drop_first();
        if d.len() > 0 && all_digits(d, 10) {
            Some(-digits_value(d, 10))
        } else {
            None
        }
    } else if t.len() > 0 && all_digits(t, 10) {
        Some(digits_value(t, 10))
    } else {
        None
    }
}

/// `Value::as_i64`: an integer number that fits in an `i64`.
pub open spec fn i64_of(j: Option<JsonV>) -> Option<i64> {
    match j {
        Some(JsonV::Number(t)) => match int_of_text(t) {
            Some(v) => if i64::MIN <= v <= i64::MAX {
                Some(v as i64)
            } else {
                None
            },
            None => None,
        },
        _ => None,
    }
}

/// `t` with every leading byte-order mark removed.
pub open spec fn strip_bom(t: Seq<char>) -> Seq<char>
    decreases t.len(),
{
    if t.len() > 0 && t[0] == '\u{feff}' {
        strip_bom(t.drop_first())
    } else {
        t
    }
}

/// The position after the leading byte-order marks.
fn bom_end(v: &[char]) -> (r: usize)
    ensures
        r <= v@.len(),
        strip_bom(v@) == v@.subrange(r as int, v@.len() as int),
{
    let mut i: usize = 0;
    assert(v@.subrange(0, v@.len() as int) == v@);
    while i < v.len() && v[i] == '\u{feff}'
        invariant
            i <= v@.len(),
            strip_bom(v@) == strip_bom(v@.subrange(i as int, v@.len() as int)),
        decreases v@.len() - i,
    {
        proof {
            assert(v@.subrange(i as int, v@.len() as int).drop_first() == v@.subrange(i + 1, v@.len() as int));
        }
        i += 1;
    }
    i
}

/// `text.trim_start_matches('\u{feff}')`.
pub fn without_bom(text: &str) -> (r: String)
    ensures
        r@ == strip_bom(text@),
{
    let v = crate::text::chars_of(text);
    let a = bom_end(v.as_slice());
    crate::text::string_of_range(v.as_slice(), a, v.len())
}

/// Digits `v[a..]` as a number, when they are one or more digits worth at most `2^63`.
fn digits_upto(v: &[char], a: usize) -> (r: Option<u64>)
    requires
        a <= v@.len(),
    ensures
        ({
            let d = v@.subrange(a as int, v@.len() as int);
            match r {
                Some(x) => d.len() > 0 && all_digits(d, 10) && x == digits_value(d, 10) && x
                    <= 0x8000_0000_0000_0000u64,
                None => !(d.len() > 0 && all_digits(d, 10) && digits_value(d, 10)
                    <= 0x8000_0000_0000_0000u64),
            }
        }),
{
    let ghost d = v@.subrange(a as int, v@.len() as int);
    if a == v.len() {
        return None;
    }
    let mut val: u64 = 0;
    let mut i: usize = a;
    while i < v.len()
        invariant
            a <= i <= v@.len(),
            a < v@.len(),
            d == v@.subrange(a as int, v@.len() as int),
            val as int == digits_value(d.take(i - a), 10),
            val <= 0x8000_0000_0000_0000u64,
            all_digits(d.take(i - a), 10),
        decreases v@.len() - i,
    {
        let k: usize = i - a;
        proof {
            assert(d.take(k + 1).drop_last() == d.take(k as int));
            assert(d.take(k + 1).last() == v@[i as int]);
        }
        let dv = crate::xml::digit(v[i], 10);
        if dv == 10 {
            proof {
                assert(!all_digits(d, 10)) by {
                    assert(d[k as int] == v@[i as int]);
                }
            }
            return None;
        }
        if val > 0x0CCC_CCCC_CCCC_CCCDu64 {
            proof {
                if all_digits(d, 10) {
                    assert(all_digits(d.take(k + 1), 10)) by {
                        assert forall|j: int| 0 <= j < d.take(k + 1).len() implies crate::xml::digit_val(#[trigger] d.take(k + 1)[j], 10) >= 0 by {
                            assert(d.take(k + 1)[j] == d[j]);
                        }
                    }
                    crate::xml::lemma_digits_grow(d, 10, k + 1);
                }
            }
            return None;
        }
        val = val * 10 + (dv as u64);
        proof {
            assert(all_digits(d.take(k + 1), 10)) by {
                assert forall|j: int| 0 <= j < d.take(k + 1).len() implies crate::xml::digit_val(#[trigger] d.take(k + 1)[j], 10) >= 0 by {
                    if j < k {
                        assert(d.take(k + 1)[j] == d.take(k as int)[j]);
                    }
                }
            }
        }
        if val > 0x8000_0000_0000_0000u64 {
            proof {
                if all_digits(d, 10) {
                    crate::xml::lemma_digits_grow(d, 10, k + 1);
                }
            }
            return None;
        }
        i += 1;
    }
    proof {
        assert(d.take(i - a) == d);
    }
    Some(val)
}

/// Looking past a member added at the end.
pub proof fn lemma_lookup_push(s: Seq<(Seq<char>, JsonV)>, x: (Seq<char>, JsonV), k: Seq<char>)
    ensures
        lookup(s.push(x), k) == (if lookup(s, k) is Some {
            lookup(s, k)
        } else if x.0 == k {
            Some(x.1)
        } else {
            None
        }),
    decreases s.len(),
{
    if s.len() > 0 {
        assert(s.push(x)[0] == s[0]);
        assert(s.push(x).drop_first() == s.drop_first().push(x));
        lemma_lookup_push(s.drop_first(), x, k);
    } else {
        assert(s.push(x)[0] == x);
        assert(s.push(x).drop_first() == s);
    }
}

/// `e` without the members named `k`.
pub open spec fn drop_key(e: Seq<(Seq<char>, JsonV)>, k: Seq<char>) -> Seq<(Seq<char>, JsonV)>
    decreases e.len(),
{
    if e.len() == 0 {
        Seq::empty()
    } else {
        let d = drop_key(e.drop_last(), k);
        if e.last().0 == k {
            d
        } else {
            d.push(e.last())
        }
    }
}

/// `e` with `k` set to `v`: other members named `k` go, the new one comes last.
pub open spec fn put(e: Seq<(Seq<char>, JsonV)>, k: Seq<char>, v: JsonV) -> Seq<(Seq<char>, JsonV)> {
    drop_key(e, k).push((k, v))
}

/// Looking up in `drop_key`.
pub proof fn lemma_lookup_drop_key(e: Seq<(Seq<char>, JsonV)>, k: Seq<char>, k2: Seq<char>)
    ensures
        lookup(drop_key(e, k), k2) == (if k2 == k {
            None
        } else {
            lookup(e, k2)
        }),
    decreases e.len(),
{
    if e.len() > 0 {
        lemma_lookup_drop_key(e.drop_last(), k, k2);
        assert(e.drop_last().push(e.last()) == e);
        lemma_lookup_push(e.drop_last(), e.last(), k2);
        lemma_lookup_push(drop_key(e.drop_last(), k), e.last(), k2);
    }
}

/// Looking up in `put`.
pub proof fn lemma_lookup_put(e: Seq<(Seq<char>, JsonV)>, k: Seq<char>, v: JsonV, k2: Seq<char>)
    ensures
        lookup(put(e, k, v), k2) == (if k2 == k {
            Some(v)
        } else {
            lookup(e, k2)
        }),
{
    lemma_lookup_drop_key(e, k, k2);
    lemma_lookup_push(drop_key(e, k), (k, v), k2);
}

/// The members of `e` without those named `k`.
pub fn without_member(e: Vec<(String, Json)>, k: &str) -> (r: Vec<(String, Json)>)
    ensures
        jmembers(r@) == drop_key(jmembers(e@), k@),
        forall|k2: Seq<char>| #[trigger] lookup(jmembers(r@), k2) == (if k2 == k@ {
            None
        } else {
            lookup(jmembers(e@), k2)
        }),
{
    let ghost src = e@;
    let mut rest = e;
    let mut out: Vec<(String, Json)> = Vec::new();
    let ghost mut i: int = 0;
    assert(src.subrange(0, src.len() as int) == src);
    while rest.len() > 0
        invariant
            0 <= i <= src.len(),
            src.len() == i + rest@.len(),
            rest@ == src.subrange(i, src.len() as int),
            jmembers(out@) == drop_key(jmembers(src.take(i)), k@),
        decreases rest@.len(),
    {
        let x = rest.remove(0);
        let ghost o = out@;
        proof {
            assert(x == src[i]);
            assert(src.take(i + 1) == src.take(i).push(x));
            assert(src.take(i + 1).drop_last() == src.take(i));
            assert(jmembers(src.take(i + 1)) == jmembers(src.take(i)).push((x.0@, jv(x.1))));
            assert(jmembers(src.take(i + 1)).drop_last() == jmembers(src.take(i)));
            assert(rest@ == src.subrange(i + 1, src.len() as int));
        }
        if !crate::text::str_eq(x.0.as_str(), k) {
            out.push(x);
            proof {
                assert(out@.drop_last() == o);
                assert(jmembers(out@) == jmembers(o).push((x.0@, jv(x.1))));
            }
        }
        proof {
            i = i + 1;
        }
    }
    proof {
        assert(src.take(i) == src);
        assert forall|k2: Seq<char>| #[trigger] lookup(jmembers(out@), k2) == (if k2 == k@ {
            None
        } else {
            lookup(jmembers(src), k2)
        }) by {
            lemma_lookup_drop_key(jmembers(src), k@, k2);
        }
    }
    out
}

/// The members of `e` with `k` set to `v` (added at the end).
pub fn with_member(e: Vec<(String, Json)>, k: String, v: Json) -> (r: Vec<(String, Json)>)
    ensures
        jmembers(r@) == put(jmembers(e@), k@, v@),
        forall|k2: Seq<char>| #[trigger] lookup(jmembers(r@), k2) == (if k2 == k@ {
            Some(v@)
        } else {
            lookup(jmembers(e@), k2)
        }),
{
    let mut out = without_member(e, k.as_str());
    let ghost o = out@;
    let ghost x = (k@, v@);
    out.push((k, v));
    proof {
        assert(out@.drop_last() == o);
        assert(jmembers(out@) == jmembers(o).push(x));
        assert forall|k2: Seq<char>| #[trigger] lookup(jmembers(out@), k2) == (if k2 == x.0 {
            Some(x.1)
        } else {
            lookup(jmembers(e@), k2)
        }) by {
            lemma_lookup_put(jmembers(e@), x.0, x.1, k2);
        }
    }
    out
}

/// A string value.
pub fn json_str(t: &str) -> (j: Json)
    ensures
        j@ == JsonV::Str(t@),
{
    Json::Str(String::from_str(t))
}

impl Json {
    /// Parse JSON text, a leading byte-order mark skipped; the error says why it is no JSON.
    pub fn parse(text: &str) -> (r: Result<Json, crate::error::Error>)
        ensures
            match json_doc(strip_bom(text@)) {
                Some(v) => r matches Ok(j) && j@ == v,
                None => r matches Err(crate::error::Error::Other(_)),
            },
    {
        let t = without_bom(text);
        match parse_json(t.as_str()) {
            Ok(j) => Ok(j),
            Err(m) => Err(crate::rules::json_error(m)),
        }
    }

    /// `self[k]`: the member named `k` of an object.
    pub fn get(&self, k: &str) -> (r: Option<&Json>)
        ensures
            match r {
                Some(x) => field(self@, k@) == Some(x@),
                None => field(self@, k@) is None,
            },
    {
        match self {
            Json::Object(e) => {
                let mut i: usize = 0;
                let ghost m = jmembers(e@);
                proof {
                    lemma_jmembers(e@);
                }
                assert(*self == Json::Object(*e));
                assert(field(self@, k@) == lookup(m, k@));
                assert(m.subrange(0, m.len() as int) == m);
                while i < e.len()
                    invariant
                        0 <= i <= e@.len(),
                        m == jmembers(e@),
                        m.len() == e@.len(),
                        forall|x: int| 0 <= x < e@.len() ==> #[trigger] m[x] == (e@[x].0@, jv(e@[x].1)),
                        lookup(m, k@) == lookup(m.subrange(i as int, m.len() as int), k@),
                        field(self@, k@) == lookup(m, k@),
                    decreases e@.len() - i,
                {
                    proof {
                        assert(m.subrange(i as int, m.len() as int).drop_first() == m.subrange(i + 1, m.len() as int));
                    }
                    if crate::text::str_eq(e[i].0.as_str(), k) {
                        let ghost rest = m.subrange(i as int, m.len() as int);
                        assert(rest[0] == m[i as int]);
                        assert(rest[0].0 == k@);
                        assert(lookup(rest, k@) == Some(rest[0].1));
                        return Some(&e[i].1);
                    }
                    i += 1;
                }
                None
            },
            _ => None,
        }
    }

    /// The member named `k` of an object's members.
    pub fn get_member<'a>(e: &'a Vec<(String, Json)>, k: &str) -> (r: Option<&'a Json>)
        ensures
            match r {
                Some(x) => lookup(jmembers(e@), k@) == Some(x@),
                None => lookup(jmembers(e@), k@) is None,
            },
    {
        let ghost m = jmembers(e@);
        proof {
            lemma_jmembers(e@);
        }
        let mut i: usize = 0;
        assert(m.subrange(0, m.len() as int) == m);
        while i < e.len()
            invariant
                0 <= i <= e@.len(),
                m == jmembers(e@),
                m.len() == e@.len(),
                forall|x: int| 0 <= x < e@.len() ==> #[trigger] m[x] == (e@[x].0@, jv(e@[x].1)),
                lookup(m, k@) == lookup(m.subrange(i as int, m.len() as int), k@),
            decreases e@.len() - i,
        {
            proof {
                assert(m.subrange(i as int, m.len() as int).drop_first() == m.subrange(i + 1, m.len() as int));
            }
            if crate::text::str_eq(e[i].0.as_str(), k) {
                let ghost rest = m.subrange(i as int, m.len() as int);
                assert(rest[0] == m[i as int]);
                assert(lookup(rest, k@) == Some(rest[0].1));
                return Some(&e[i].1);
            }
            i += 1;
        }
        None
    }

    /// A value equal to this one.
    pub fn copy(&self) -> (r: Json)
        ensures
            r@ == self@,
        decreases *self,
    {
        match self {
            Json::Null => Json::Null,
            Json::Bool(b) => Json::Bool(*b),
            Json::Number(t) => Json::Number(t.clone()),
            Json::Str(t) => Json::Str(t.clone()),
            Json::Array(a) => {
                let mut out: Vec<Json> = Vec::new();
                let mut i: usize = 0;
                while i < a.len()
                    invariant
                        0 <= i <= a@.len(),
                        jvs(out@) == jvs(a@.take(i as int)),
                        *self == Json::Array(*a),
                    decreases a@.len() - i,
                {
                    proof {
                        assert(*self == Json::Array(*a));
                        assert(self->Array_0 == *a);
                        assert(decreases_to!(*self => self->Array_0));
                        assert(decreases_to!(*a => a@));
                        assert(decreases_to!(a@ => a@[i as int]));
                        assert(a@.take(i + 1).drop_last() == a@.take(i as int));
                    }
                    let c = a[i].copy();
                    let ghost o = out@;
                    out.push(c);
                    proof {
                        assert(out@.drop_last() == o);
                    }
                    i += 1;
                }
                assert(a@.take(a@.len() as int) == a@);
                Json::Array(out)
            },
            Json::Object(o) => {
                let mut out: Vec<(String, Json)> = Vec::new();
                let mut i: usize = 0;
                while i < o.len()
                    invariant
                        0 <= i <= o@.len(),
                        jmembers(out@) == jmembers(o@.take(i as int)),
                        *self == Json::Object(*o),
                    decreases o@.len() - i,
                {
                    proof {
                        assert(*self == Json::Object(*o));
                        assert(self->Object_0 == *o);
                        assert(decreases_to!(*self => self->Object_0));
                        assert(decreases_to!(*o => o@));
                        assert(decreases_to!(o@ => o@[i as int]));
                        assert(decreases_to!(o@[i as int] => o@[i as int].1));
                        assert(o@.take(i + 1).drop_last() == o@.take(i as int));
                    }
                    let c = o[i].1.copy();
                    let k = o[i].0.clone();
                    let ghost prev = out@;
                    out.push((k, c));
                    proof {
                        assert(out@.drop_last() == prev);
                    }
                    i += 1;
                }
                assert(o@.take(o@.len() as int) == o@);
                Json::Object(out)
            },
        }
    }

    /// `Value::as_bool`.
    pub fn as_bool(&self) -> (r: Option<bool>)
        ensures
            r == bool_of(Some(self@)),
    {
        match self {
            Json::Bool(b) => Some(*b),
            _ => None,
        }
    }

    /// `Value::as_str`.
    pub fn as_str(&self) -> (r: Option<&String>)
        ensures
            match r {
                Some(s) => str_of(Some(self@)) == Some(s@),
                None => str_of(Some(self@)) is None,
            },
    {
        match self {
            Json::Str(s) => Some(s),
            _ => None,
        }
    }

    /// `Value::as_i64`.
    pub fn as_i64(&self) -> (r: Option<i64>)
        ensures
            r == i64_of(Some(self@)),
    {
        match self {
            Json::Number(t) => {
                let v = crate::text::chars_of(t.as_str());
                let neg = v.len() > 0 && v[0] == '-';
                let start: usize = if neg { 1 } else { 0 };
                proof {
                    if neg {
                        assert(v@.subrange(1, v@.len() as int) == t@.drop_first());
                    } else {
                        assert(v@.subrange(0, v@.len() as int) == t@);
                    }
                }
                match digits_upto(v.as_slice(), start) {
                    Some(x) => {
                        if neg {
                            if x == 0x8000_0000_0000_0000u64 {
                                Some(i64::MIN)
                            } else {
                                let y: i64 = x as i64;
                                Some(-y)
                            }
                        } else if x <= 0x7FFF_FFFF_FFFF_FFFFu64 {
                            Some(x as i64)
                        } else {
                            None
                        }
                    },
                    None => None,
                }
            },
            _ => None,
        }
    }
}

} // verus!
