//! Named load-order snapshots per instance ("Vanilla+QoL", "Big overhaul"): the ordered package
//! ids of the active list. These functions work on an instance's list of snapshots; reading and
//! writing the file is the caller's.

use vstd::prelude::*;

use crate::error::Error;
use crate::text::{eq_ignore_case, sv, trim};

verus! {

broadcast use {vstd::string::group_string_axioms, vstd::seq_lib::group_seq_properties};

/// One snapshot.
#[derive(Debug, Clone)]
pub struct Snapshot {
    pub name: String,
    pub created: u32,
    pub package_ids: Vec<String>,
}

/// What the snapshot list shows.
#[derive(Debug, Clone)]
pub struct SnapshotInfo {
    pub name: String,
    pub created: u32,
    pub count: u32,
}

/// Name, creation time and number of ids of each snapshot.
pub open spec fn names_times(l: Seq<Snapshot>) -> Seq<(Seq<char>, u32, u32)> {
    l.map_values(|s: Snapshot| (s.name@, s.created, s.package_ids@.len() as u32))
}

/// The contents of snapshot infos.
pub open spec fn info_view(v: Seq<SnapshotInfo>) -> Seq<(Seq<char>, u32, u32)> {
    v.map_values(|x: SnapshotInfo| (x.name@, x.created, x.count))
}

/// The snapshots not named `name` (ASCII case-insensitive).
pub open spec fn without_named(l: Seq<Snapshot>, name: Seq<char>, any_case: bool) -> Seq<Snapshot>
    decreases l.len(),
{
    if l.len() == 0 {
        Seq::empty()
    } else {
        let r = without_named(l.drop_last(), name, any_case);
        let hit = if any_case { eq_ignore_case(l.last().name@, name) } else { l.last().name@ == name };
        if hit {
            r
        } else {
            r.push(l.last())
        }
    }
}

/// Position of the first snapshot named exactly `name` (-1 if none).
pub open spec fn named_pos(l: Seq<Snapshot>, name: Seq<char>) -> int
    decreases l.len(),
{
    if l.len() == 0 {
        -1
    } else {
        let r = named_pos(l.drop_last(), name);
        if r >= 0 {
            r
        } else if l.last().name@ == name {
            l.len() - 1
        } else {
            -1
        }
    }
}

/// Where an entry made at `t` goes in a list sorted newest first: after every entry that is
/// not older than it.
pub open spec fn insert_pos(s: Seq<(Seq<char>, u32, u32)>, t: u32) -> int
    decreases s.len(),
{
    if s.len() == 0 {
        0
    } else if s[0].1 < t {
        0
    } else {
        1 + insert_pos(s.skip(1), t)
    }
}

/// The infos of `l`, newest first, entries made at the same time in the order of `l`.
pub open spec fn info_sorted(l: Seq<Snapshot>) -> Seq<(Seq<char>, u32, u32)>
    decreases l.len(),
{
    if l.len() == 0 {
        Seq::empty()
    } else {
        let s = info_sorted(l.drop_last());
        let x = l.last();
        s.insert(insert_pos(s, x.created), (x.name@, x.created, x.package_ids@.len() as u32))
    }
}

/// The snapshots with all but their names, newest first (equal times keep their order).
pub fn info(list: &Vec<Snapshot>) -> (r: Vec<SnapshotInfo>)
    ensures
        info_view(r@) == info_sorted(list@),
        r@.len() == list@.len(),
        forall|i: int, j: int| 0 <= i < j < r@.len() ==> #[trigger] r@[i].created >= #[trigger] r@[j].created,
        info_view(r@).to_multiset() == names_times(list@).to_multiset(),
{
    let mut out: Vec<SnapshotInfo> = Vec::new();
    let mut i: usize = 0;
    while i < list.len()
        invariant
            0 <= i <= list@.len(),
            out@.len() == i,
            forall|a: int, b: int| 0 <= a < b < out@.len() ==> #[trigger] out@[a].created >= #[trigger] out@[b].created,
            info_view(out@).to_multiset() == names_times(list@.take(i as int)).to_multiset(),
            info_view(out@) == info_sorted(list@.take(i as int)),
        decreases list@.len() - i,
    {
        let s = &list[i];
        #[verifier::truncate]
        let count = s.package_ids.len() as u32;
        let x = SnapshotInfo { name: s.name.clone(), created: s.created, count };
        let mut p: usize = 0;
        let ghost v = info_view(out@);
        while p < out.len() && out[p].created >= s.created
            invariant
                0 <= p <= out@.len(),
                v == info_view(out@),
                forall|a: int| 0 <= a < p ==> #[trigger] out@[a].created >= s.created,
                insert_pos(v, s.created) == p + insert_pos(v.skip(p as int), s.created),
            decreases out@.len() - p,
        {
            proof {
                assert(v.skip(p as int)[0] == v[p as int]);
                assert(v.skip(p as int).skip(1) == v.skip(p + 1));
            }
            p += 1;
        }
        proof {
            if p < out@.len() {
                assert(v.skip(p as int)[0] == v[p as int]);
            }
        }
        let ghost o0 = out@;
        proof {
            assert(p < o0.len() ==> o0[p as int].created < s.created);
        }
        out.insert(p, x);
        proof {
            assert forall|a: int, b: int| 0 <= a < b < out@.len() implies #[trigger] out@[a].created >= #[trigger] out@[b].created by {
                if b < p {
                    assert(out@[a] == o0[a] && out@[b] == o0[b]);
                } else if b == p {
                    assert(out@[a] == o0[a]);
                } else if a == p {
                    assert(out@[b] == o0[b - 1]);
                    assert(o0[p as int].created >= o0[b - 1].created || b - 1 == p);
                } else if a < p {
                    assert(out@[a] == o0[a] && out@[b] == o0[b - 1]);
                } else {
                    assert(out@[a] == o0[a - 1] && out@[b] == o0[b - 1]);
                }
            }
            assert(info_view(out@) =~= info_view(o0).insert(p as int, (s.name@, s.created, count)));
            lemma_insert_ms(info_view(o0), p as int, (s.name@, s.created, count));
            assert(list@.take(i + 1) == list@.take(i as int).push(*s));
            assert(list@.take(i + 1).drop_last() == list@.take(i as int));
            assert(names_times(list@.take(i + 1)) =~= names_times(list@.take(i as int)).push((s.name@, s.created, count)));
        }
        i += 1;
    }
    proof {
        assert(list@.take(i as int) == list@);
    }
    out
}

proof fn lemma_insert_ms(s: Seq<(Seq<char>, u32, u32)>, p: int, x: (Seq<char>, u32, u32))
    requires
        0 <= p <= s.len(),
    ensures
        s.insert(p, x).to_multiset() == s.to_multiset().insert(x),
{
    let a = s.take(p);
    let b = s.skip(p);
    assert(s == a + b);
    assert(s.insert(p, x) == a.push(x) + b);
    vstd::seq_lib::lemma_multiset_commutative(a.push(x), b);
    vstd::seq_lib::lemma_multiset_commutative(a, b);
    a.to_multiset_ensures();
}

/// Drops from `list` the snapshots named `name` (`any_case`: ASCII case-insensitive).
fn retain_not_named(list: &mut Vec<Snapshot>, name: &str, any_case: bool)
    ensures
        final(list)@ == without_named(old(list)@, name@, any_case),
{
    let ghost l0 = list@;
    let key = crate::text::chars_of(name);
    let mut i: usize = 0;
    let ghost mut c: int = 0;
    proof {
        assert(l0.take(0) =~= Seq::<Snapshot>::empty());
        assert(list@ == without_named(l0.take(0), name@, any_case) + l0.skip(0));
    }
    while i < list.len()
        invariant
            0 <= c <= l0.len(),
            key@ == name@,
            without_named(l0.take(c), name@, any_case).len() == i,
            list@ == without_named(l0.take(c), name@, any_case) + l0.skip(c),
        decreases l0.len() - c,
    {
        proof {
            assert(l0.take(c + 1).drop_last() == l0.take(c));
            assert(list@[i as int] == l0[c]);
            assert(l0.take(c + 1).last() == l0[c]);
        }
        let nm = crate::text::chars_of(list[i].name.as_str());
        let hit = if any_case {
            crate::text::eq_ignore_case_chars(nm.as_slice(), key.as_slice())
        } else {
            crate::text::chars_eq(nm.as_slice(), key.as_slice())
        };
        let ghost before = list@;
        if hit {
            list.remove(i);
            proof {
                assert(list@ =~= without_named(l0.take(c + 1), name@, any_case) + l0.skip(c + 1));
            }
        } else {
            i += 1;
            proof {
                assert(list@ =~= without_named(l0.take(c + 1), name@, any_case) + l0.skip(c + 1));
            }
        }
        proof {
            c = c + 1;
        }
    }
    proof {
        if c < l0.len() {
            assert(list@.len() > i);
        }
        assert(l0.take(c) == l0);
        assert(l0.skip(c) =~= Seq::<Snapshot>::empty());
    }
}

/// Save (or overwrite) a snapshot called `name` (trimmed): a snapshot of the same name, in any
/// ASCII case, is replaced; the new one comes last. An empty name is refused.
pub fn save(list: &mut Vec<Snapshot>, name: &str, package_ids: Vec<String>, now: u32) -> (r: Result<(), Error>)
    ensures
        r is Err <==> trim(name@).len() == 0,
        r matches Err(e) ==> e matches Error::Other(m) && m@ == "Give the snapshot a name"@,
        r is Err ==> final(list)@ == old(list)@,
        r is Ok ==> final(list)@.len() == without_named(old(list)@, trim(name@), true).len() + 1
            && final(list)@.take(final(list)@.len() - 1) == without_named(old(list)@, trim(name@), true)
            && final(list)@.last().name@ == trim(name@)
            && final(list)@.last().created == now
            && final(list)@.last().package_ids@ == package_ids@,
{
    let t = crate::text::trim_str(name);
    if t.as_str().unicode_len() == 0 {
        return Err(Error::Other(String::from_str("Give the snapshot a name")));
    }
    retain_not_named(list, t.as_str(), true);
    let ghost l1 = list@;
    list.push(Snapshot { name: t, created: now, package_ids });
    proof {
        assert(list@.take(list@.len() - 1) == l1);
    }
    Ok(())
}

/// Remove the snapshots named exactly `name`.
pub fn delete(list: &mut Vec<Snapshot>, name: &str)
    ensures
        final(list)@ == without_named(old(list)@, name@, false),
{
    retain_not_named(list, name, false);
}

/// The first snapshot named exactly `name`.
pub fn get<'a>(list: &'a Vec<Snapshot>, name: &str) -> (r: Option<&'a Snapshot>)
    ensures
        r is Some == (named_pos(list@, name@) >= 0),
        r matches Some(s) ==> *s == list@[named_pos(list@, name@)],
{
    let key = crate::text::chars_of(name);
    let mut i: usize = 0;
    proof {
        assert(list@.take(0) =~= Seq::<Snapshot>::empty());
    }
    while i < list.len()
        invariant
            0 <= i <= list@.len(),
            key@ == name@,
            named_pos(list@.take(i as int), name@) == -1,
        decreases list@.len() - i,
    {
        proof {
            assert(list@.take(i + 1).drop_last() == list@.take(i as int));
            assert(list@.take(i + 1).last() == list@[i as int]);
        }
        let nm = crate::text::chars_of(list[i].name.as_str());
        if crate::text::chars_eq(nm.as_slice(), key.as_slice()) {
            proof {
                lemma_named_extend(list@, i + 1, name@, i as int);
            }
            return Some(&list[i]);
        }
        i += 1;
    }
    proof {
        assert(list@.take(i as int) == list@);
    }
    None
}

proof fn lemma_named_extend(l: Seq<Snapshot>, k: int, name: Seq<char>, x: int)
    requires
        0 <= x < k <= l.len(),
        named_pos(l.take(k), name) == x,
    ensures
        named_pos(l, name) == x,
    decreases l.len() - k,
{
    if k < l.len() {
        assert(l.take(k + 1).drop_last() == l.take(k));
        lemma_named_extend(l, k + 1, name, x);
    } else {
        assert(l.take(k) == l);
    }
}

/// No snapshot left by `without_named` (ignoring case) carries the name.
proof fn lemma_without_named(l: Seq<Snapshot>, name: Seq<char>)
    ensures
        forall|i: int| 0 <= i < without_named(l, name, true).len() ==> #[trigger] without_named(l, name, true)[i].name@ != name,
    decreases l.len(),
{
    if l.len() > 0 {
        lemma_without_named(l.drop_last(), name);
        let r = without_named(l.drop_last(), name, true);
        if !eq_ignore_case(l.last().name@, name) {
            assert forall|i: int| 0 <= i < r.push(l.last()).len() implies #[trigger] r.push(l.last())[i].name@ != name by {
                if i == r.len() {
                    assert(r.push(l.last())[i] == l.last());
                    if l.last().name@ == name {
                        assert(eq_ignore_case(l.last().name@, name));
                    }
                } else {
                    assert(r.push(l.last())[i] == r[i]);
                }
            }
        }
    }
}

/// Reading a snapshot back by the name it was saved under gives what was saved: after a
/// successful `save`, `get` with the trimmed name finds the new snapshot, with its package ids
/// and time.
pub proof fn law_saved_snapshot_reads_back(before: Seq<Snapshot>, after: Seq<Snapshot>, name: Seq<char>, ids: Seq<String>, now: u32)
    requires
        after.len() == without_named(before, trim(name), true).len() + 1,
        after.take(after.len() - 1) == without_named(before, trim(name), true),
        after.last().name@ == trim(name),
        after.last().created == now,
        after.last().package_ids@ == ids,
    ensures
        named_pos(after, trim(name)) == after.len() - 1,
        after[named_pos(after, trim(name))].package_ids@ == ids,
        after[named_pos(after, trim(name))].created == now,
{
    let w = without_named(before, trim(name), true);
    lemma_without_named(before, trim(name));
    assert(after.drop_last() == w);
    lemma_named_pos_absent(w, trim(name));
}

/// No snapshot left by `without_named` (exact names) carries the name.
proof fn lemma_without_exact(l: Seq<Snapshot>, name: Seq<char>)
    ensures
        forall|i: int| 0 <= i < without_named(l, name, false).len() ==> #[trigger] without_named(l, name, false)[i].name@ != name,
    decreases l.len(),
{
    if l.len() > 0 {
        lemma_without_exact(l.drop_last(), name);
        let r = without_named(l.drop_last(), name, false);
        if l.last().name@ != name {
            assert forall|i: int| 0 <= i < r.push(l.last()).len() implies #[trigger] r.push(l.last())[i].name@ != name by {
                if i < r.len() {
                    assert(r.push(l.last())[i] == r[i]);
                }
            }
        }
    }
}

/// A deleted snapshot is gone: after `delete` with a name, `get` with that name finds nothing.
pub proof fn law_deleted_snapshot_is_gone(before: Seq<Snapshot>, name: Seq<char>)
    ensures
        named_pos(without_named(before, name, false), name) == -1,
{
    lemma_without_exact(before, name);
    lemma_named_pos_absent(without_named(before, name, false), name);
}

/// A name none of the snapshots carries has no position.
proof fn lemma_named_pos_absent(l: Seq<Snapshot>, name: Seq<char>)
    requires
        forall|i: int| 0 <= i < l.len() ==> #[trigger] l[i].name@ != name,
    ensures
        named_pos(l, name) == -1,
    decreases l.len(),
{
    if l.len() > 0 {
        assert forall|i: int| 0 <= i < l.drop_last().len() implies #[trigger] l.drop_last()[i].name@ != name by {
            assert(l.drop_last()[i] == l[i]);
        }
        lemma_named_pos_absent(l.drop_last(), name);
        assert(l.last() == l[l.len() - 1]);
    }
}

} // verus!
