//! Steam's Workshop manifest (`appworkshop_294100.acf`): per-item update times, offline.

use vstd::prelude::*;

use crate::paths::{Vdf, VdfValue, first_key, parse_vdf, vdf_of, vdf_value};
use crate::xml::parse_u32;

verus! {

broadcast use {vstd::string::group_string_axioms, vstd::seq_lib::group_seq_properties};

/// Publication times of one Workshop item.
#[derive(Debug, Clone, Copy, Default, PartialEq, Eq, Structural)]
pub struct WorkshopTimes {
    /// When the installed version was published (unix seconds).
    pub updated: u32,
    /// Newest version Steam knows about; greater than `updated` means an update is pending.
    pub latest: u32,
}

impl WorkshopTimes {
    /// An update is pending for an installed item.
    pub fn outdated(&self) -> (b: bool)
        ensures
            b == (self.latest > self.updated && self.updated > 0),
    {
        self.latest > self.updated && self.updated > 0
    }
}

/// Item id → times, one entry per id, in order of first mention.
#[derive(Debug, Clone)]
pub struct WorkshopTimesMap {
    pub entries: Vec<(String, WorkshopTimes)>,
}

/// The entries as values.
pub open spec fn times_view(e: Seq<(String, WorkshopTimes)>) -> Seq<(Seq<char>, WorkshopTimes)> {
    e.map_values(|x: (String, WorkshopTimes)| (x.0@, x.1))
}

/// Position of the entry for `id` (-1 if none).
pub open spec fn key_pos(t: Seq<(Seq<char>, WorkshopTimes)>, id: Seq<char>) -> int
    decreases t.len(),
{
    if t.len() == 0 {
        -1
    } else {
        let r = key_pos(t.drop_last(), id);
        if r >= 0 {
            r
        } else if t.last().0 == id {
            t.len() - 1
        } else {
            -1
        }
    }
}

/// The times of `id` (zero when absent).
pub open spec fn times_of(t: Seq<(Seq<char>, WorkshopTimes)>, id: Seq<char>) -> WorkshopTimes {
    let k = key_pos(t, id);
    if k >= 0 {
        t[k].1
    } else {
        WorkshopTimes { updated: 0, latest: 0 }
    }
}

/// `t` with the times of `id` set to `w`.
pub open spec fn upsert(t: Seq<(Seq<char>, WorkshopTimes)>, id: Seq<char>, w: WorkshopTimes) -> Seq<(Seq<char>, WorkshopTimes)> {
    let k = key_pos(t, id);
    if k >= 0 {
        t.update(k, (id, w))
    } else {
        t.push((id, w))
    }
}

/// The value of `key` in a map value.
pub open spec fn vget(v: VdfValue, key: Seq<char>) -> Option<VdfValue> {
    match v {
        VdfValue::Dict(m) => if first_key(m, key) >= 0 {
            Some(m[first_key(m, key)].1)
        } else {
            None
        },
        VdfValue::Str(_) => None,
    }
}

/// The number stored under `key`, 0 when missing or not a number.
pub open spec fn num_of(v: VdfValue, key: Seq<char>) -> u32 {
    match vget(v, key) {
        Some(VdfValue::Str(s)) => match parse_u32(s, 10) {
            Some(n) => n,
            None => 0,
        },
        _ => 0,
    }
}

/// Records the installed items: `updated` from `timeupdated`.
pub open spec fn fold_installed(t: Seq<(Seq<char>, WorkshopTimes)>, items: Seq<(Seq<char>, VdfValue)>) -> Seq<(Seq<char>, WorkshopTimes)>
    decreases items.len(),
{
    if items.len() == 0 {
        t
    } else {
        let r = fold_installed(t, items.drop_last());
        let (id, v) = items.last();
        upsert(r, id, WorkshopTimes { updated: num_of(v, "timeupdated"@), ..times_of(r, id) })
    }
}

/// Records the item details: `latest` from `latest_timeupdated`, and `updated` from
/// `timeupdated` where no installed time was recorded.
pub open spec fn fold_details(t: Seq<(Seq<char>, WorkshopTimes)>, items: Seq<(Seq<char>, VdfValue)>) -> Seq<(Seq<char>, WorkshopTimes)>
    decreases items.len(),
{
    if items.len() == 0 {
        t
    } else {
        let r = fold_details(t, items.drop_last());
        let (id, v) = items.last();
        let e = times_of(r, id);
        let latest = num_of(v, "latest_timeupdated"@);
        upsert(r, id, WorkshopTimes { latest, updated: if e.updated == 0 { num_of(v, "timeupdated"@) } else { e.updated } })
    }
}

/// The entries of a map value under `key`, if that value is a map.
pub open spec fn items_of(app: VdfValue, key: Seq<char>) -> Seq<(Seq<char>, VdfValue)> {
    match vget(app, key) {
        Some(VdfValue::Dict(m)) => m,
        _ => Seq::empty(),
    }
}

/// The times recorded in a manifest's text.
pub open spec fn acf_times(s: Seq<char>) -> Seq<(Seq<char>, WorkshopTimes)> {
    match vget(vdf_of(s), "AppWorkshop"@) {
        Some(app) => fold_details(fold_installed(Seq::empty(), items_of(app, "WorkshopItemsInstalled"@)), items_of(app, "WorkshopItemDetails"@)),
        None => Seq::empty(),
    }
}

impl WorkshopTimesMap {
    /// The times of item `id`.
    pub fn get(&self, id: &str) -> (r: Option<&WorkshopTimes>)
        ensures
            r is Some == (key_pos(times_view(self.entries@), id@) >= 0),
            r matches Some(w) ==> *w == times_view(self.entries@)[key_pos(times_view(self.entries@), id@)].1,
    {
        let k = self.position(id);
        if k < self.entries.len() {
            Some(&self.entries[k].1)
        } else {
            None
        }
    }

    /// Position of the entry for `id`, or the number of entries.
    fn position(&self, id: &str) -> (r: usize)
        ensures
            r <= self.entries@.len(),
            r < self.entries@.len() ==> r as int == key_pos(times_view(self.entries@), id@),
            r == self.entries@.len() ==> key_pos(times_view(self.entries@), id@) == -1,
    {
        let ghost t = times_view(self.entries@);
        let mut i: usize = 0;
        proof {
            assert(t.take(0) =~= Seq::<(Seq<char>, WorkshopTimes)>::empty());
        }
        while i < self.entries.len()
            invariant
                0 <= i <= self.entries@.len(),
                t == times_view(self.entries@),
                key_pos(t.take(i as int), id@) == -1,
            decreases self.entries@.len() - i,
        {
            proof {
                assert(t.take(i + 1).drop_last() == t.take(i as int));
                assert(t.take(i + 1).last() == t[i as int]);
            }
            if crate::text::str_eq(self.entries[i].0.as_str(), id) {
                proof {
                    lemma_key_pos_prefix(t, i + 1, id@);
                }
                return i;
            }
            i += 1;
        }
        proof {
            assert(t.take(i as int) == t);
        }
        i
    }

    /// Sets the times of `id`.
    fn put(&mut self, id: &String, w: WorkshopTimes)
        ensures
            times_view(final(self).entries@) == upsert(times_view(old(self).entries@), id@, w),
    {
        let k = self.position(id.as_str());
        let ghost t0 = times_view(self.entries@);
        if k < self.entries.len() {
            self.entries.set(k, (id.clone(), w));
            proof {
                assert(times_view(self.entries@) =~= t0.update(k as int, (id@, w)));
            }
        } else {
            self.entries.push((id.clone(), w));
            proof {
                assert(times_view(self.entries@) =~= t0.push((id@, w)));
            }
        }
    }

    /// The times of `id`, zero when absent.
    fn times(&self, id: &String) -> (r: WorkshopTimes)
        ensures
            r == times_of(times_view(self.entries@), id@),
    {
        match self.get(id.as_str()) {
            Some(w) => *w,
            None => WorkshopTimes { updated: 0, latest: 0 },
        }
    }

    /// Number of items.
    pub fn len(&self) -> (n: usize)
        ensures
            n == self.entries@.len(),
    {
        self.entries.len()
    }

    /// No items.
    pub fn is_empty(&self) -> (b: bool)
        ensures
            b == (self.entries@.len() == 0),
    {
        self.entries.len() == 0
    }
}

proof fn lemma_key_pos_prefix(t: Seq<(Seq<char>, WorkshopTimes)>, k: int, id: Seq<char>)
    requires
        0 < k <= t.len(),
        key_pos(t.take(k - 1), id) == -1,
        t[k - 1].0 == id,
    ensures
        key_pos(t, id) == k - 1,
    decreases t.len() - k,
{
    if k == t.len() {
        assert(t.take(k - 1) == t.drop_last());
    } else {
        assert(t.take(k).drop_last() == t.take(k - 1));
        assert(t.take(k).last() == t[k - 1]);
        assert(key_pos(t.take(k), id) == k - 1);
        lemma_key_pos_prefix_ext(t, k, id, k - 1);
    }
}

proof fn lemma_key_pos_prefix_ext(t: Seq<(Seq<char>, WorkshopTimes)>, k: int, id: Seq<char>, p: int)
    requires
        0 <= p < k <= t.len(),
        key_pos(t.take(k), id) == p,
    ensures
        key_pos(t, id) == p,
    decreases t.len() - k,
{
    if k < t.len() {
        assert(t.take(k + 1).drop_last() == t.take(k));
        assert(key_pos(t.take(k + 1), id) == p);
        lemma_key_pos_prefix_ext(t, k + 1, id, p);
    } else {
        assert(t.take(k) == t);
    }
}

/// The number stored under `key` in `v`, 0 when missing or not a number.
fn num(v: &Vdf, key: &str) -> (r: u32)
    ensures
        r == num_of(vdf_value(*v), key@),
{
    match v.get(key) {
        Some(x) => match x.str() {
            Some(s) => {
                let c = crate::text::chars_of(s);
                match crate::xml::parse_u32_at(c.as_slice(), 0, c.len(), 10) {
                    Some(n) => {
                        proof {
                            assert(c@.subrange(0, c@.len() as int) == c@);
                        }
                        n
                    },
                    None => {
                        proof {
                            assert(c@.subrange(0, c@.len() as int) == c@);
                        }
                        0
                    },
                }
            },
            None => 0,
        },
        None => 0,
    }
}

/// Per-item update times from the text of `appworkshop_294100.acf`.
pub fn parse(text: &str) -> (r: WorkshopTimesMap)
    ensures
        times_view(r.entries@) == acf_times(text@),
{
    let root = parse_vdf(text);
    let mut out = WorkshopTimesMap { entries: Vec::new() };
    proof {
        assert(times_view(out.entries@) =~= Seq::<(Seq<char>, WorkshopTimes)>::empty());
    }
    let app = match root.get("AppWorkshop") {
        Some(a) => a,
        None => {
            return out;
        },
    };
    let ts = String::from_str("timeupdated");
    let lts = String::from_str("latest_timeupdated");
    let ghost t0 = times_view(out.entries@);
    if let Some(Vdf::Dict(items)) = app.get("WorkshopItemsInstalled") {
        proof {
            crate::paths::lemma_entries_value_pub(items@);
        }
        let mut i: usize = 0;
        while i < items.len()
            invariant
                0 <= i <= items@.len(),
                ts@ == "timeupdated"@,
                crate::paths::entries_value(items@).len() == items@.len(),
                forall|x: int| 0 <= x < items@.len() ==> #[trigger] crate::paths::entries_value(items@)[x] == (items@[x].0@, vdf_value(items@[x].1)),
                times_view(out.entries@) == fold_installed(t0, crate::paths::entries_value(items@).take(i as int)),
            decreases items@.len() - i,
        {
            let (id, v) = (&items[i].0, &items[i].1);
            let ghost ev = crate::paths::entries_value(items@);
            proof {
                assert(ev.take(i + 1).drop_last() == ev.take(i as int));
                assert(ev.take(i + 1).last() == ev[i as int]);
            }
            let old_w = out.times(id);
            let w = WorkshopTimes { updated: num(v, ts.as_str()), latest: old_w.latest };
            out.put(id, w);
            i += 1;
        }
        proof {
            assert(crate::paths::entries_value(items@).take(i as int) == crate::paths::entries_value(items@));
        }
    }
    let ghost t1 = times_view(out.entries@);
    proof {
        assert(t1 == fold_installed(Seq::empty(), items_of(vdf_value(*app), "WorkshopItemsInstalled"@)));
    }
    if let Some(Vdf::Dict(items)) = app.get("WorkshopItemDetails") {
        proof {
            crate::paths::lemma_entries_value_pub(items@);
        }
        let mut i: usize = 0;
        while i < items.len()
            invariant
                0 <= i <= items@.len(),
                ts@ == "timeupdated"@,
                lts@ == "latest_timeupdated"@,
                crate::paths::entries_value(items@).len() == items@.len(),
                forall|x: int| 0 <= x < items@.len() ==> #[trigger] crate::paths::entries_value(items@)[x] == (items@[x].0@, vdf_value(items@[x].1)),
                times_view(out.entries@) == fold_details(t1, crate::paths::entries_value(items@).take(i as int)),
            decreases items@.len() - i,
        {
            let (id, v) = (&items[i].0, &items[i].1);
            let ghost ev = crate::paths::entries_value(items@);
            proof {
                assert(ev.take(i + 1).drop_last() == ev.take(i as int));
                assert(ev.take(i + 1).last() == ev[i as int]);
            }
            let e = out.times(id);
            let latest = num(v, lts.as_str());
            let updated = if e.updated == 0 {
                num(v, ts.as_str())
            } else {
                e.updated
            };
            out.put(id, WorkshopTimes { updated, latest });
            i += 1;
        }
        proof {
            assert(crate::paths::entries_value(items@).take(i as int) == crate::paths::entries_value(items@));
        }
    }
    out
}

} // verus!
