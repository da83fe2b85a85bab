//! Per-mod load timings written by the "Loading Progress" mod: how package ids in that report
//! are matched.

use vstd::prelude::*;

use crate::about::{child_of, child_t, text_of, text_t};
use crate::text::{has_suffix, lowercase, to_lower};
use crate::xml::{tree, Node, Tree};

verus! {

broadcast use vstd::string::group_string_axioms;

/// The package id as the report is keyed: lowercased, without a `_steam` suffix.
pub open spec fn normalized(p: Seq<char>) -> Seq<char> {
    let l = lowercase(p);
    if has_suffix(l, "_steam"@) {
        l.take(l.len() - 6)
    } else {
        l
    }
}

/// Lowercase `package_id` and drop a `_steam` suffix.
pub fn normalize(package_id: &str) -> (r: String)
    ensures
        r@ == normalized(package_id@),
{
    let low = to_lower(package_id);
    let v = crate::text::chars_of(low.as_str());
    let suffix = crate::text::chars_of("_steam");
    let n = v.len();
    proof {
        reveal_strlit("_steam");
    }
    if n >= 6 && crate::text::starts_at(v.as_slice(), n - 6, suffix.as_slice()) {
        proof {
            let t = v@.subrange(n - 6, n as int);
            assert(t.take(6) == t);
            assert(has_suffix(v@, "_steam"@));
        }
        crate::text::string_of_range(v.as_slice(), 0, n - 6)
    } else {
        proof {
            if n >= 6 {
                let t = v@.subrange(n - 6, n as int);
                assert(t.take(6) == t);
                assert(!has_suffix(v@, "_steam"@));
            }
        }
        low
    }
}

/// The timings of one mod as the report writes them (milliseconds, as text; absent when the
/// element is missing or empty).
#[derive(Debug, Clone)]
pub struct Impact {
    pub total_ms: Option<String>,
    pub off_thread_ms: Option<String>,
}

/// The contents of an `Impact`.
pub struct ImpactView {
    pub total_ms: Option<Seq<char>>,
    pub off_thread_ms: Option<Seq<char>>,
}

impl View for Impact {
    type V = ImpactView;

    open spec fn view(&self) -> ImpactView {
        ImpactView {
            total_ms: match self.total_ms {
                Some(t) => Some(t@),
                None => None,
            },
            off_thread_ms: match self.off_thread_ms {
                Some(t) => Some(t@),
                None => None,
            },
        }
    }
}

/// Keyed timings as plain values.
pub open spec fn keyed(e: Seq<(String, Impact)>) -> Seq<(Seq<char>, ImpactView)> {
    e.map_values(|x: (String, Impact)| (x.0@, x.1@))
}

/// The timings of the `li` elements of a report's mod list: keyed by normalized package id
/// when there is one, else by lowercased display name; entries without a name are skipped.
pub open spec fn impacts_of(cs: Seq<Tree>) -> (Seq<(Seq<char>, ImpactView)>, Seq<(Seq<char>, ImpactView)>)
    decreases cs.len(),
{
    if cs.len() == 0 {
        (Seq::empty(), Seq::empty())
    } else {
        let (p, n) = impacts_of(cs.drop_last());
        let t = cs.last();
        if !crate::text::eq_ignore_case(t.name, "li"@) {
            (p, n)
        } else {
            match text_t(t, "modName"@) {
                None => (p, n),
                Some(name) => {
                    let imp = ImpactView { total_ms: text_t(t, "totalImpact"@), off_thread_ms: text_t(t, "offThreadTotalImpact"@) };
                    match text_t(t, "modPackageId"@) {
                        Some(pid) => (p.push((normalized(pid), imp)), n),
                        None => (p, n.push((lowercase(name), imp))),
                    }
                },
            }
        }
    }
}

/// The report a document holds: `StartupImpactSession/sessionData/mods`.
pub open spec fn report_tree(root: Tree) -> Option<(Seq<(Seq<char>, ImpactView)>, Seq<(Seq<char>, ImpactView)>)> {
    match child_t(root, "StartupImpactSession"@) {
        Some(s) => match child_t(s, "sessionData"@) {
            Some(d) => match child_t(d, "mods"@) {
                Some(m) => Some(impacts_of(m.children)),
                None => None,
            },
            None => None,
        },
        None => None,
    }
}

/// Position of the last entry keyed `k` (-1 if none): later entries win.
pub open spec fn last_key(e: Seq<(Seq<char>, ImpactView)>, k: Seq<char>) -> int
    decreases e.len(),
{
    if e.len() == 0 {
        -1
    } else if e.last().0 == k {
        e.len() - 1
    } else {
        last_key(e.drop_last(), k)
    }
}

proof fn lemma_last_key(e: Seq<(Seq<char>, ImpactView)>, k: Seq<char>)
    ensures
        -1 <= last_key(e, k) < e.len(),
        last_key(e, k) >= 0 ==> e[last_key(e, k)].0 == k,
        forall|j: int| last_key(e, k) < j < e.len() ==> #[trigger] e[j].0 != k,
    decreases e.len(),
{
    if e.len() > 0 && e.last().0 != k {
        lemma_last_key(e.drop_last(), k);
        assert forall|j: int| last_key(e, k) < j < e.len() implies #[trigger] e[j].0 != k by {
            if j < e.len() - 1 {
                assert(e[j] == e.drop_last()[j]);
            }
        }
    }
}

/// Per-mod timings from `StartupImpactData.xml`.
#[derive(Debug)]
pub struct Report {
    /// Normalized package id, timings.
    pub by_package: Vec<(String, Impact)>,
    /// Lowercased display name, timings: for reports written before package ids were recorded.
    pub by_name: Vec<(String, Impact)>,
}

/// Position of the last entry of `e` keyed `k`.
fn last_pos(e: &Vec<(String, Impact)>, k: &String) -> (r: Option<usize>)
    ensures
        match r {
            Some(i) => i as int == last_key(keyed(e@), k@) && i < e@.len(),
            None => last_key(keyed(e@), k@) < 0,
        },
{
    proof {
        lemma_last_key(keyed(e@), k@);
    }
    let mut i = e.len();
    while i > 0
        invariant
            0 <= i <= e@.len(),
            forall|j: int| i <= j < e@.len() ==> #[trigger] e@[j].0@ != k@,
            -1 <= last_key(keyed(e@), k@) < e@.len(),
            last_key(keyed(e@), k@) >= 0 ==> keyed(e@)[last_key(keyed(e@), k@)].0 == k@,
            forall|j: int| last_key(keyed(e@), k@) < j < e@.len() ==> #[trigger] keyed(e@)[j].0 != k@,
        decreases i,
    {
        i -= 1;
        assert(keyed(e@)[i as int].0 == e@[i as int].0@);
        if crate::text::str_eq(e[i].0.as_str(), k.as_str()) {
            return Some(i);
        }
    }
    proof {
        if last_key(keyed(e@), k@) >= 0 {
            let j = last_key(keyed(e@), k@);
            assert(keyed(e@)[j].0 == e@[j].0@);
        }
    }
    None
}

/// The timings of one `li`, keyed as `impacts_of` does.
fn one_entry(li: &Node, p: &mut Vec<(String, Impact)>, n: &mut Vec<(String, Impact)>)
    ensures
        ({
            let t = tree(*li);
            let (p2, n2) = match text_t(t, "modName"@) {
                None => (keyed(old(p)@), keyed(old(n)@)),
                Some(name) => {
                    let imp = ImpactView { total_ms: text_t(t, "totalImpact"@), off_thread_ms: text_t(t, "offThreadTotalImpact"@) };
                    match text_t(t, "modPackageId"@) {
                        Some(pid) => (keyed(old(p)@).push((normalized(pid), imp)), keyed(old(n)@)),
                        None => (keyed(old(p)@), keyed(old(n)@).push((lowercase(name), imp))),
                    }
                },
            };
            keyed(final(p)@) == p2 && keyed(final(n)@) == n2
        }),
{
    match text_of(li, "modName") {
        None => {},
        Some(name) => {
            let imp = Impact { total_ms: text_of(li, "totalImpact"), off_thread_ms: text_of(li, "offThreadTotalImpact") };
            match text_of(li, "modPackageId") {
                Some(pid) => {
                    let ghost before = p@;
                    let key = normalize(pid.as_str());
                    p.push((key, imp));
                    proof {
                        assert(keyed(p@) =~= keyed(before).push((key@, imp@)));
                    }
                },
                None => {
                    let ghost before = n@;
                    let key = to_lower(name.as_str());
                    n.push((key, imp));
                    proof {
                        assert(keyed(n@) =~= keyed(before).push((key@, imp@)));
                    }
                },
            }
        },
    }
}

impl Report {
    /// Read a report; `None` when the document is not one.
    pub fn parse(src: &str) -> (r: Option<Report>)
        ensures
            match report_tree(crate::xml::parse_tree(src@)) {
                Some((p, n)) => r matches Some(x) && keyed(x.by_package@) == p && keyed(x.by_name@) == n,
                None => r is None,
            },
    {
        let root = crate::xml::parse(src);
        let s = match child_of(&root, "StartupImpactSession") {
            Some(s) => s,
            None => return None,
        };
        let d = match child_of(s, "sessionData") {
            Some(d) => d,
            None => return None,
        };
        let m = match child_of(d, "mods") {
            Some(m) => m,
            None => return None,
        };
        let ghost ts = tree(*m).children;
        proof {
            crate::xml::lemma_named_trees(m.children@, "li"@, true);
        }
        let mut p: Vec<(String, Impact)> = Vec::new();
        let mut n: Vec<(String, Impact)> = Vec::new();
        let mut i: usize = 0;
        while i < m.children.len()
            invariant
                0 <= i <= m.children@.len(),
                ts == crate::xml::trees(m.children@),
                ts.len() == m.children@.len(),
                forall|k: int| 0 <= k < m.children@.len() ==> #[trigger] ts[k] == tree(m.children@[k]),
                (keyed(p@), keyed(n@)) == impacts_of(ts.take(i as int)),
            decreases m.children@.len() - i,
        {
            proof {
                assert(ts.take(i + 1).drop_last() == ts.take(i as int));
                assert(ts.take(i + 1).last() == ts[i as int]);
            }
            let c = &m.children[i];
            let cn = crate::text::chars_of(c.name.as_str());
            let li = crate::text::chars_of("li");
            proof {
                reveal_strlit("li");
            }
            if crate::text::eq_ignore_case_chars(cn.as_slice(), li.as_slice()) {
                one_entry(c, &mut p, &mut n);
            }
            i += 1;
        }
        proof {
            assert(ts.take(ts.len() as int) == ts);
        }
        Some(Report { by_package: p, by_name: n })
    }

    /// The timings of a mod: by package id (normalized) when the report has it, else by display
    /// name (lowercased); later entries win.
    pub fn find(&self, package_id: &str, name: &str) -> (r: Option<&Impact>)
        ensures
            ({
                let kp = last_key(keyed(self.by_package@), normalized(package_id@));
                let kn = last_key(keyed(self.by_name@), lowercase(name@));
                if kp >= 0 {
                    r matches Some(x) && x@ == keyed(self.by_package@)[kp].1
                } else if kn >= 0 {
                    r matches Some(x) && x@ == keyed(self.by_name@)[kn].1
                } else {
                    r is None
                }
            }),
    {
        let k = normalize(package_id);
        match last_pos(&self.by_package, &k) {
            Some(i) => Some(&self.by_package[i].1),
            None => {
                let l = to_lower(name);
                match last_pos(&self.by_name, &l) {
                    Some(i) => Some(&self.by_name[i].1),
                    None => None,
                }
            },
        }
    }
}

} // verus!
