//! Steam Workshop details for installed Workshop mods, cached: which ids must be fetched again.

use vstd::prelude::*;

use crate::json::{field, field_of, jvs, str_of, Json, JsonV};
use crate::text::{sv, trim};
use crate::xml::{all_digits, digits_value, parse_u32};

verus! {

broadcast use {vstd::string::group_string_axioms, vstd::seq_lib::group_seq_properties};

/// Entries older than this are fetched again.
pub const MAX_AGE_SECS: u64 = 604800;

/// Details of one Workshop item.
#[derive(Debug, Clone)]
pub struct WorkshopMeta {
    pub id: String,
    pub title: String,
    /// Steam's description (BBCode), cut to a preview.
    pub description: String,
    pub subscriptions: u32,
    pub favorited: u32,
    pub tags: Vec<String>,
    pub time_created: u32,
    pub time_updated: u32,
    pub file_size: u32,
    /// Steam no longer lists the item (deleted, or hidden by its author).
    pub removed: bool,
    pub banned: bool,
    /// When we fetched this (unix seconds).
    pub fetched: u32,
}

/// When the cache entry for `id` was fetched (the first entry for it), if there is one.
pub open spec fn fetched_at(cache: Seq<(String, WorkshopMeta)>, id: Seq<char>) -> Option<u32>
    decreases cache.len(),
{
    if cache.len() == 0 {
        None
    } else {
        let r = fetched_at(cache.drop_last(), id);
        if r is Some {
            r
        } else if cache.last().0@ == id {
            Some(cache.last().1.fetched)
        } else {
            None
        }
    }
}

/// `id` has no cache entry, or one fetched more than `MAX_AGE_SECS` before `now`.
pub open spec fn stale(cache: Seq<(String, WorkshopMeta)>, id: Seq<char>, now: u32) -> bool {
    match fetched_at(cache, id) {
        None => true,
        Some(f) => (if now > f { now - f } else { 0 }) > MAX_AGE_SECS,
    }
}

/// The ids of `ids` that are stale, in order.
pub open spec fn stale_ids(cache: Seq<(String, WorkshopMeta)>, ids: Seq<Seq<char>>, now: u32) -> Seq<Seq<char>>
    decreases ids.len(),
{
    if ids.len() == 0 {
        Seq::empty()
    } else {
        let r = stale_ids(cache, ids.drop_last(), now);
        if stale(cache, ids.last(), now) {
            r.push(ids.last())
        } else {
            r
        }
    }
}

/// When the entry for `id` was fetched.
fn fetched_of(cache: &Vec<(String, WorkshopMeta)>, id: &String) -> (r: Option<u32>)
    ensures
        r == fetched_at(cache@, id@),
{
    let mut i: usize = 0;
    proof {
        assert(cache@.take(0) =~= Seq::<(String, WorkshopMeta)>::empty());
    }
    while i < cache.len()
        invariant
            0 <= i <= cache@.len(),
            fetched_at(cache@.take(i as int), id@) is None,
        decreases cache@.len() - i,
    {
        proof {
            assert(cache@.take(i + 1).drop_last() == cache@.take(i as int));
            assert(cache@.take(i + 1).last() == cache@[i as int]);
        }
        if cache[i].0 == *id {
            proof {
                lemma_fetched_extend(cache@, i + 1, id@);
            }
            return Some(cache[i].1.fetched);
        }
        i += 1;
    }
    proof {
        assert(cache@.take(i as int) == cache@);
    }
    None
}

proof fn lemma_fetched_extend(c: Seq<(String, WorkshopMeta)>, k: int, id: Seq<char>)
    requires
        0 < k <= c.len(),
        fetched_at(c.take(k), id) is Some,
    ensures
        fetched_at(c, id) == fetched_at(c.take(k), id),
    decreases c.len() - k,
{
    if k < c.len() {
        assert(c.take(k + 1).drop_last() == c.take(k));
        lemma_fetched_extend(c, k + 1, id);
    } else {
        assert(c.take(k) == c);
    }
}

/// Ids that are missing from the cache or stale. The cache holds each id once (it is a map from
/// id to entry); should an id occur twice, its first entry counts.
pub fn needs_fetch(cache: &Vec<(String, WorkshopMeta)>, ids: &[String], now: u32) -> (r: Vec<String>)
    ensures
        sv(r@) == stale_ids(cache@, sv(ids@), now),
{
    let mut r: Vec<String> = Vec::new();
    let mut i: usize = 0;
    while i < ids.len()
        invariant
            0 <= i <= ids@.len(),
            sv(r@) == stale_ids(cache@, sv(ids@).take(i as int), now),
        decreases ids@.len() - i,
    {
        proof {
            assert(sv(ids@).take(i + 1).drop_last() == sv(ids@).take(i as int));
            assert(sv(ids@).take(i + 1).last() == ids@[i as int]@);
        }
        let is_stale = match fetched_of(cache, &ids[i]) {
            None => true,
            Some(f) => (now.saturating_sub(f) as u64) > MAX_AGE_SECS,
        };
        if is_stale {
            let ghost r0 = sv(r@);
            r.push(ids[i].clone());
            proof {
                assert(sv(r@) =~= r0.push(ids@[i as int]@));
            }
        }
        i += 1;
    }
    proof {
        assert(sv(ids@).take(i as int) == sv(ids@));
    }
    r
}

/// Descriptions are cut to this many characters.
pub const MAX_DESCRIPTION: usize = 1200;

/// `Value::as_u64`: a non-negative integer number that fits in a `u64`.
pub open spec fn u64_number(t: Seq<char>) -> Option<u64> {
    if t.len() > 0 && all_digits(t, 10) && digits_value(t, 10) <= u64::MAX {
        Some(digits_value(t, 10) as u64)
    } else {
        None
    }
}

/// `str::parse::<u64>`: an optional `+` and one or more digits whose value fits.
pub open spec fn u64_text(t: Seq<char>) -> Option<u64> {
    let d = if t.len() > 0 && t[0] == '+' {
        t.drop_first()
    } else {
        t
    };
    u64_number(d)
}

/// A count Steam sends as a number or as a numeric string; 0 otherwise.
pub open spec fn num_of(j: Option<JsonV>) -> u64 {
    match j {
        Some(JsonV::Number(t)) => match u64_number(t) {
            Some(n) => n,
            None => 0,
        },
        Some(JsonV::Str(t)) => match u64_text(t) {
            Some(n) => n,
            None => 0,
        },
        _ => 0,
    }
}

/// The larger of two counts.
pub open spec fn larger(a: u64, b: u64) -> u64 {
    if a >= b {
        a
    } else {
        b
    }
}

/// The `tag` strings of the entries of a `tags` array.
pub open spec fn tags_of(a: Seq<JsonV>) -> Seq<Seq<char>>
    decreases a.len(),
{
    if a.len() == 0 {
        Seq::empty()
    } else {
        let r = tags_of(a.drop_last());
        match str_of(field(a.last(), "tag"@)) {
            Some(t) => r.push(t),
            None => r,
        }
    }
}

/// The details one entry of `publishedfiledetails` gives: it needs a string
/// `publishedfileid`. Counts are cut to 32 bits; an item is removed unless `result` is 1 and
/// `visibility` 0.
pub open spec fn entry_ok(m: WorkshopMeta, v: JsonV, fetched: u32) -> bool {
    let desc = match str_of(field(v, "description"@)) {
        Some(d) => d,
        None => Seq::empty(),
    };
    &&& str_of(field(v, "publishedfileid"@)) == Some(m.id@)
    &&& m.title@ == match str_of(field(v, "title"@)) {
        Some(t) => t,
        None => Seq::empty(),
    }
    &&& m.description@ == trim(desc.take(if desc.len() < 1200 { desc.len() as int } else { 1200 }))
    &&& m.subscriptions == larger(num_of(field(v, "lifetime_subscriptions"@)), num_of(field(v, "subscriptions"@))) as u32
    &&& m.favorited == larger(num_of(field(v, "lifetime_favorited"@)), num_of(field(v, "favorited"@))) as u32
    &&& sv(m.tags@) == match field(v, "tags"@) {
        Some(JsonV::Array(a)) => tags_of(a),
        _ => Seq::empty(),
    }
    &&& m.time_created == num_of(field(v, "time_created"@)) as u32
    &&& m.time_updated == num_of(field(v, "time_updated"@)) as u32
    &&& m.file_size == num_of(field(v, "file_size"@)) as u32
    &&& m.removed == (num_of(field(v, "result"@)) != 1 || num_of(field(v, "visibility"@)) != 0)
    &&& m.banned == (num_of(field(v, "banned"@)) != 0)
    &&& m.fetched == fetched
}

/// Digits of `v[a..]` as a `u64`, when they are one or more digits whose value fits.
fn u64_digits(v: &[char], a: usize) -> (r: Option<u64>)
    requires
        a <= v@.len(),
    ensures
        r == u64_number(v@.subrange(a as int, v@.len() as int)),
{
    let ghost d = v@.subrange(a as int, v@.len() as int);
    if a == v.len() {
        return None;
    }
    let mut val: u64 = 0;
    let mut i: usize = a;
    while i < v.len()
        invariant
            a <= i <= v@.len(),
            a < v@.len(),
            d == v@.subrange(a as int, v@.len() as int),
            val as int == digits_value(d.take(i - a), 10),
            all_digits(d.take(i - a), 10),
        decreases v@.len() - i,
    {
        let k: usize = i - a;
        proof {
            assert(d.take(k + 1).drop_last() == d.take(k as int));
            assert(d.take(k + 1).last() == v@[i as int]);
        }
        let dv = crate::xml::digit(v[i], 10);
        if dv == 10 {
            proof {
                assert(!all_digits(d, 10)) by {
                    assert(d[k as int] == v@[i as int]);
                }
            }
            return None;
        }
        proof {
            assert(all_digits(d.take(k + 1), 10)) by {
                assert forall|j: int| 0 <= j < d.take(k + 1).len() implies crate::xml::digit_val(#[trigger] d.take(k + 1)[j], 10) >= 0 by {
                    if j < k {
                        assert(d.take(k + 1)[j] == d.take(k as int)[j]);
                    }
                }
            }
            assert(digits_value(d.take(k + 1), 10) == val * 10 + dv);
        }
        match val.checked_mul(10) {
            Some(x) => match x.checked_add(dv as u64) {
                Some(y) => {
                    val = y;
                },
                None => {
                    proof {
                        if all_digits(d, 10) {
                            crate::xml::lemma_digits_grow(d, 10, k + 1);
                        }
                    }
                    return None;
                },
            },
            None => {
                proof {
                    if all_digits(d, 10) {
                        crate::xml::lemma_digits_grow(d, 10, k + 1);
                        assert(digits_value(d.take(k + 1), 10) >= val * 10);
                    }
                }
                return None;
            },
        }
        i += 1;
    }
    proof {
        assert(d.take(i - a) == d);
    }
    Some(val)
}

/// A count Steam sends as a number or as a numeric string (see `num_of`).
fn num(v: &Json, k: &str) -> (r: u64)
    ensures
        r == num_of(field(v@, k@)),
{
    match v.get(k) {
        Some(Json::Number(t)) => {
            let c = crate::text::chars_of(t.as_str());
            assert(c@.subrange(0, c@.len() as int) == c@);
            match u64_digits(c.as_slice(), 0) {
                Some(n) => n,
                None => 0,
            }
        },
        Some(Json::Str(t)) => {
            let c = crate::text::chars_of(t.as_str());
            let a: usize = if c.len() > 0 && c[0] == '+' { 1 } else { 0 };
            proof {
                if a == 1 {
                    assert(c@.subrange(1, c@.len() as int) == t@.drop_first());
                } else {
                    assert(c@.subrange(0, c@.len() as int) == t@);
                }
            }
            match u64_digits(c.as_slice(), a) {
                Some(n) => n,
                None => 0,
            }
        },
        _ => 0,
    }
}

/// A string member, or empty.
fn text_member(v: &Json, k: &str) -> (r: String)
    ensures
        r@ == match str_of(field(v@, k@)) {
            Some(t) => t,
            None => Seq::empty(),
        },
{
    match v.get(k) {
        Some(x) => match x.as_str() {
            Some(t) => t.clone(),
            None => String::new(),
        },
        None => String::new(),
    }
}

/// The `tag` strings of a `tags` array.
fn tags_from(v: &Json) -> (r: Vec<String>)
    ensures
        sv(r@) == match field(v@, "tags"@) {
            Some(JsonV::Array(a)) => tags_of(a),
            _ => Seq::empty(),
        },
{
    let mut out: Vec<String> = Vec::new();
    proof {
        reveal_strlit("tags");
        reveal_strlit("tag");
    }
    match v.get("tags") {
        Some(Json::Array(a)) => {
            let ghost av = jvs(a@);
            proof {
                crate::json::lemma_jvs(a@);
            }
            let mut i: usize = 0;
            while i < a.len()
                invariant
                    0 <= i <= a@.len(),
                    av.len() == a@.len(),
                    forall|x: int| 0 <= x < a@.len() ==> #[trigger] av[x] == crate::json::jv(a@[x]),
                    sv(out@) == tags_of(av.take(i as int)),
                decreases a@.len() - i,
            {
                proof {
                    assert(av.take(i + 1).drop_last() == av.take(i as int));
                    assert(av.take(i + 1).last() == av[i as int]);
                }
                match a[i].get("tag") {
                    Some(x) => match x.as_str() {
                        Some(t) => {
                            let ghost o = out@;
                            out.push(t.clone());
                            proof {
                                assert(sv(out@) == sv(o).push(t@));
                            }
                        },
                        None => {},
                    },
                    None => {},
                }
                i += 1;
            }
            assert(av.take(av.len() as int) == av);
            out
        },
        _ => {
            assert(sv(out@) =~= Seq::<Seq<char>>::empty());
            out
        },
    }
}

/// The details one entry of `publishedfiledetails` gives (see `entry_ok`).
pub fn parse_entry(v: &Json, fetched: u32) -> (r: Option<WorkshopMeta>)
    ensures
        match r {
            Some(m) => entry_ok(m, v@, fetched),
            None => !(str_of(field(v@, "publishedfileid"@)) is Some),
        },
{
    proof {
        reveal_strlit("publishedfileid");
        reveal_strlit("description");
    }
    let id = match v.get("publishedfileid") {
        Some(x) => match x.as_str() {
            Some(t) => t.clone(),
            None => return None,
        },
        None => return None,
    };
    let full = text_member(v, "description");
    let c = crate::text::chars_of(full.as_str());
    let cut: usize = if c.len() < MAX_DESCRIPTION { c.len() } else { MAX_DESCRIPTION };
    let head = crate::text::string_of_range(c.as_slice(), 0, cut);
    proof {
        assert(c@.subrange(0, cut as int) == c@.take(cut as int));
    }
    let description = crate::text::trim_str(head.as_str());
    let ls = num(v, "lifetime_subscriptions");
    let ss = num(v, "subscriptions");
    let lf = num(v, "lifetime_favorited");
    let ff = num(v, "favorited");
    let result = num(v, "result");
    let visibility = num(v, "visibility");
    let subscriptions = if ls >= ss { ls } else { ss };
    let favorited = if lf >= ff { lf } else { ff };
    Some(WorkshopMeta {
        id,
        title: text_member(v, "title"),
        description,
        subscriptions: #[verifier::truncate] (subscriptions as u32),
        favorited: #[verifier::truncate] (favorited as u32),
        tags: tags_from(v),
        time_created: #[verifier::truncate] (num(v, "time_created") as u32),
        time_updated: #[verifier::truncate] (num(v, "time_updated") as u32),
        file_size: #[verifier::truncate] (num(v, "file_size") as u32),
        removed: result != 1 || visibility != 0,
        banned: num(v, "banned") != 0,
        fetched,
    })
}

/// The entries `parse_entry` accepts, in order.
pub open spec fn entries_ok(r: Seq<WorkshopMeta>, items: Seq<JsonV>, fetched: u32) -> bool
    decreases items.len(),
{
    if items.len() == 0 {
        r.len() == 0
    } else {
        let last = items.last();
        if str_of(field(last, "publishedfileid"@)) is Some {
            r.len() > 0 && entry_ok(r.last(), last, fetched) && entries_ok(r.drop_last(), items.drop_last(), fetched)
        } else {
            entries_ok(r, items.drop_last(), fetched)
        }
    }
}

/// The details of every entry of `response.publishedfiledetails`.
pub fn parse_response(body: &Json, fetched: u32) -> (r: Vec<WorkshopMeta>)
    ensures
        entries_ok(r@, match field_of(field(body@, "response"@), "publishedfiledetails"@) {
            Some(JsonV::Array(a)) => a,
            _ => Seq::empty(),
        }, fetched),
{
    let mut out: Vec<WorkshopMeta> = Vec::new();
    proof {
        reveal_strlit("response");
        reveal_strlit("publishedfiledetails");
    }
    if let Some(resp) = body.get("response") {
        if let Some(Json::Array(a)) = resp.get("publishedfiledetails") {
            let ghost av = jvs(a@);
            proof {
                crate::json::lemma_jvs(a@);
            }
            let mut i: usize = 0;
            while i < a.len()
                invariant
                    0 <= i <= a@.len(),
                    av.len() == a@.len(),
                    forall|x: int| 0 <= x < a@.len() ==> #[trigger] av[x] == crate::json::jv(a@[x]),
                    entries_ok(out@, av.take(i as int), fetched),
                decreases a@.len() - i,
            {
                proof {
                    assert(av.take(i + 1).drop_last() == av.take(i as int));
                    assert(av.take(i + 1).last() == av[i as int]);
                }
                if let Some(m) = parse_entry(&a[i], fetched) {
                    let ghost o = out@;
                    out.push(m);
                    proof {
                        assert(out@.drop_last() == o);
                    }
                }
                i += 1;
            }
            assert(av.take(av.len() as int) == av);
        }
    }
    out
}

} // verus!
