//! External rule databases: Community Rules, user rules, ignore list, NoVersionWarning,
//! "Use This Instead" replacements.

use std::io::Read;
use vstd::prelude::*;

use crate::error::Error;
use crate::json::{bool_of, drop_key, field, field_of, i64_of, jmembers, json_doc, json_pretty, jvs, put, str_of, strip_bom, Json, JsonV};
use crate::text::eq_ignore_case;
use crate::text::{clone_strings, lex_lt, lowercase, sv, to_lower};

verus! {

broadcast use vstd::string::group_string_axioms;

/// Rules for one package id, from a community or user rules file.
#[derive(Debug, Clone)]
pub struct ExtRule {
    pub load_after: Vec<String>,
    pub load_before: Vec<String>,
    /// Sort into tier 1 (load as early as possible after the base game).
    pub load_top: bool,
    /// Sort into tier 3 (load last).
    pub load_bottom: bool,
}

/// The contents of an `ExtRule`.
pub struct ExtRuleView {
    pub load_after: Seq<Seq<char>>,
    pub load_before: Seq<Seq<char>>,
    pub load_top: bool,
    pub load_bottom: bool,
}

impl View for ExtRule {
    type V = ExtRuleView;

    open spec fn view(&self) -> ExtRuleView {
        ExtRuleView {
            load_after: sv(self.load_after@),
            load_before: sv(self.load_before@),
            load_top: self.load_top,
            load_bottom: self.load_bottom,
        }
    }
}

impl ExtRuleView {
    /// No load order information at all.
    pub open spec fn is_blank(self) -> bool {
        &&& self.load_after.len() == 0
        &&& self.load_before.len() == 0
        &&& !self.load_top
        &&& !self.load_bottom
    }
}

impl ExtRule {
    /// A rule that says nothing.
    pub fn empty() -> (r: ExtRule)
        ensures
            r@.is_blank(),
    {
        ExtRule { load_after: Vec::new(), load_before: Vec::new(), load_top: false, load_bottom: false }
    }

    /// A copy with the same contents.
    pub fn copy(&self) -> (r: ExtRule)
        ensures
            r@ == self@,
    {
        ExtRule {
            load_after: clone_strings(&self.load_after),
            load_before: clone_strings(&self.load_before),
            load_top: self.load_top,
            load_bottom: self.load_bottom,
        }
    }
}

/// The rules of a rules file, keyed by lowercase package id.
#[derive(Debug, Clone)]
pub struct ExternalRules {
    pub timestamp: i64,
    rules: Vec<(String, ExtRule)>,
}

/// Entries as a map (a later entry for the same key wins).
pub open spec fn entries_map(e: Seq<(String, ExtRule)>) -> Map<Seq<char>, ExtRuleView>
    decreases e.len(),
{
    if e.len() == 0 {
        Map::empty()
    } else {
        entries_map(e.drop_last()).insert(e.last().0@, e.last().1@)
    }
}

/// No key occurs twice.
pub open spec fn distinct_keys(e: Seq<(String, ExtRule)>) -> bool {
    forall|i: int, j: int| 0 <= i < j < e.len() ==> #[trigger] e[i].0@ != #[trigger] e[j].0@
}

proof fn lemma_distinct_drop_last(e: Seq<(String, ExtRule)>)
    requires
        distinct_keys(e),
        e.len() > 0,
    ensures
        distinct_keys(e.drop_last()),
{
    let d = e.drop_last();
    assert forall|a: int, b: int| 0 <= a < b < d.len() implies #[trigger] d[a].0@ != #[trigger] d[b].0@ by {
        assert(d[a] == e[a]);
        assert(d[b] == e[b]);
    }
}

proof fn lemma_entries_map_at(e: Seq<(String, ExtRule)>, i: int)
    requires
        distinct_keys(e),
        0 <= i < e.len(),
    ensures
        entries_map(e).contains_key(e[i].0@),
        entries_map(e)[e[i].0@] == e[i].1@,
    decreases e.len(),
{
    if i < e.len() - 1 {
        lemma_distinct_drop_last(e);
        lemma_entries_map_at(e.drop_last(), i);
        assert(e.drop_last()[i] == e[i]);
        assert(e[i].0@ != e[e.len() - 1].0@);
    }
}

proof fn lemma_entries_map_has(e: Seq<(String, ExtRule)>, k: Seq<char>)
    ensures
        entries_map(e).contains_key(k) <==> exists|i: int| 0 <= i < e.len() && #[trigger] e[i].0@
            == k,
    decreases e.len(),
{
    if e.len() > 0 {
        lemma_entries_map_has(e.drop_last(), k);
        if entries_map(e.drop_last()).contains_key(k) {
            let i = choose|i: int| 0 <= i < e.drop_last().len() && #[trigger] e.drop_last()[i].0@
                == k;
            assert(e[i].0@ == k);
        }
        if exists|i: int| 0 <= i < e.len() && #[trigger] e[i].0@ == k {
            let i = choose|i: int| 0 <= i < e.len() && #[trigger] e[i].0@ == k;
            if i < e.len() - 1 {
                assert(e.drop_last()[i].0@ == k);
            }
        }
    }
}

proof fn lemma_entries_map_len(e: Seq<(String, ExtRule)>)
    requires
        distinct_keys(e),
    ensures
        entries_map(e).dom().finite(),
        entries_map(e).dom().len() == e.len(),
    decreases e.len(),
{
    if e.len() > 0 {
        lemma_distinct_drop_last(e);
        lemma_entries_map_len(e.drop_last());
        lemma_entries_map_has(e.drop_last(), e.last().0@);
        if entries_map(e.drop_last()).contains_key(e.last().0@) {
            let i = choose|i: int| 0 <= i < e.drop_last().len() && #[trigger] e.drop_last()[i].0@
                == e.last().0@;
            assert(e[i].0@ == e[e.len() - 1].0@);
        }
    }
}

proof fn lemma_entries_map_update(e: Seq<(String, ExtRule)>, i: int, x: (String, ExtRule))
    requires
        distinct_keys(e),
        0 <= i < e.len(),
        e[i].0@ == x.0@,
    ensures
        distinct_keys(e.update(i, x)),
        entries_map(e.update(i, x)) == entries_map(e).insert(x.0@, x.1@),
    decreases e.len(),
{
    let u = e.update(i, x);
    assert forall|a: int, b: int| 0 <= a < b < u.len() implies #[trigger] u[a].0@
        != #[trigger] u[b].0@ by {
        assert(e[a].0@ != e[b].0@);
    }
    if i == e.len() - 1 {
        assert(u.drop_last() == e.drop_last());
        assert(entries_map(u) =~= entries_map(e).insert(x.0@, x.1@));
    } else {
        assert(u.drop_last() == e.drop_last().update(i, x));
        lemma_distinct_drop_last(e);
        lemma_entries_map_update(e.drop_last(), i, x);
        assert(e[i].0@ != e[e.len() - 1].0@);
        assert(entries_map(u) =~= entries_map(e).insert(x.0@, x.1@));
    }
}

proof fn lemma_entries_map_remove(e: Seq<(String, ExtRule)>, i: int)
    requires
        distinct_keys(e),
        0 <= i < e.len(),
    ensures
        distinct_keys(e.remove(i)),
        entries_map(e.remove(i)) == entries_map(e).remove(e[i].0@),
    decreases e.len(),
{
    let r = e.remove(i);
    assert forall|a: int, b: int| 0 <= a < b < r.len() implies #[trigger] r[a].0@
        != #[trigger] r[b].0@ by {
        let a0 = if a < i { a } else { a + 1 };
        let b0 = if b < i { b } else { b + 1 };
        assert(r[a] == e[a0]);
        assert(r[b] == e[b0]);
        assert(e[a0].0@ != e[b0].0@);
    }
    if i == e.len() - 1 {
        assert(r == e.drop_last());
        lemma_entries_map_has(e.drop_last(), e[i].0@);
        if entries_map(e.drop_last()).contains_key(e[i].0@) {
            let j = choose|j: int| 0 <= j < e.drop_last().len() && #[trigger] e.drop_last()[j].0@
                == e[i].0@;
            assert(e[j].0@ == e[i].0@);
        }
        assert(entries_map(r) =~= entries_map(e).remove(e[i].0@));
    } else {
        assert(r.drop_last() == e.drop_last().remove(i));
        assert(r.last() == e.last());
        lemma_distinct_drop_last(e);
        lemma_entries_map_remove(e.drop_last(), i);
        assert(e[i].0@ != e[e.len() - 1].0@);
        assert(e.drop_last()[i] == e[i]);
        assert(entries_map(r) =~= entries_map(e).remove(e[i].0@));
    }
}

/// The keys of an object value, lowercased; nothing for anything else.
pub open spec fn lower_keys(j: Option<JsonV>) -> Seq<Seq<char>> {
    match j {
        Some(JsonV::Object(e)) => e.map_values(|p: (Seq<char>, JsonV)| lowercase(p.0)),
        _ => Seq::empty(),
    }
}

/// A `{"value": true}` flag.
pub open spec fn flag_on(j: Option<JsonV>) -> bool {
    bool_of(field_of(j, "value"@)) == Some(true)
}

/// The rule one member of `rules` describes.
pub open spec fn rule_of(r: JsonV) -> ExtRuleView {
    ExtRuleView {
        load_after: lower_keys(field(r, "loadAfter"@)),
        load_before: lower_keys(field(r, "loadBefore"@)),
        load_top: flag_on(field(r, "loadTop"@)),
        load_bottom: flag_on(field(r, "loadBottom"@)),
    }
}

/// The members of `rules`, keyed by lowercase package id; a later member wins.
pub open spec fn rules_map(e: Seq<(Seq<char>, JsonV)>) -> Map<Seq<char>, ExtRuleView>
    decreases e.len(),
{
    if e.len() == 0 {
        Map::empty()
    } else {
        rules_map(e.drop_last()).insert(lowercase(e.last().0), rule_of(e.last().1))
    }
}

/// The rules a rules document holds: those under an object `rules`, else none.
pub open spec fn doc_rules(v: JsonV) -> Map<Seq<char>, ExtRuleView> {
    match field(v, "rules"@) {
        Some(JsonV::Object(e)) => rules_map(e),
        _ => Map::empty(),
    }
}

/// The document's integer `timestamp`, else 0.
pub open spec fn doc_stamp(v: JsonV) -> i64 {
    match i64_of(field(v, "timestamp"@)) {
        Some(t) => t,
        None => 0,
    }
}

/// The error for text that is not JSON: `JSON: ` and `serde_json`'s message.
pub fn json_error(m: String) -> (e: Error)
    ensures
        e matches Error::Other(t) && t@ == "JSON: "@ + m@,
{
    let mut t = String::from_str("JSON: ");
    proof {
        reveal_strlit("JSON: ");
    }
    t.append(m.as_str());
    Error::Other(t)
}

/// The lowercased keys of an object value.
fn keys_lower(j: Option<&Json>) -> (r: Vec<String>)
    ensures
        sv(r@) == lower_keys(match j {
            Some(x) => Some(x@),
            None => None,
        }),
{
    let mut out: Vec<String> = Vec::new();
    if let Some(Json::Object(e)) = j {
        let ghost m = jmembers(e@);
        proof {
            crate::json::lemma_jmembers(e@);
        }
        let mut i: usize = 0;
        while i < e.len()
            invariant
                0 <= i <= e@.len(),
                m.len() == e@.len(),
                forall|x: int| 0 <= x < e@.len() ==> #[trigger] m[x] == (e@[x].0@, crate::json::jv(e@[x].1)),
                sv(out@) == m.take(i as int).map_values(|p: (Seq<char>, JsonV)| lowercase(p.0)),
            decreases e@.len() - i,
        {
            let ghost before = out@;
            let l = to_lower(e[i].0.as_str());
            out.push(l);
            proof {
                assert(out@ == before.push(l));
                assert(sv(out@) =~= sv(before).push(l@));
                assert(m.take(i + 1) == m.take(i as int).push(m[i as int]));
                assert(sv(out@) =~= m.take(i + 1).map_values(|p: (Seq<char>, JsonV)| lowercase(p.0)));
            }
            i += 1;
        }
        assert(m.take(m.len() as int) == m);
    } else {
        assert(sv(out@) =~= Seq::<Seq<char>>::empty());
    }
    out
}

/// Whether an optional `{"value": true}` is set.
fn flag_from(j: Option<&Json>) -> (r: bool)
    ensures
        r == flag_on(match j {
            Some(x) => Some(x@),
            None => None,
        }),
{
    proof {
        reveal_strlit("value");
    }
    match j {
        Some(x) => match x.get("value") {
            Some(b) => match b.as_bool() {
                Some(t) => t,
                None => false,
            },
            None => false,
        },
        None => false,
    }
}

/// The rule one member of `rules` describes.
fn rule_from(r: &Json) -> (x: ExtRule)
    ensures
        x@ == rule_of(r@),
{
    proof {
        reveal_strlit("loadAfter");
        reveal_strlit("loadBefore");
        reveal_strlit("loadTop");
        reveal_strlit("loadBottom");
    }
    ExtRule {
        load_after: keys_lower(r.get("loadAfter")),
        load_before: keys_lower(r.get("loadBefore")),
        load_top: flag_from(r.get("loadTop")),
        load_bottom: flag_from(r.get("loadBottom")),
    }
}

impl View for ExternalRules {
    type V = Map<Seq<char>, ExtRuleView>;

    closed spec fn view(&self) -> Map<Seq<char>, ExtRuleView> {
        entries_map(self.rules@)
    }
}

impl ExternalRules {
    /// The `timestamp` field.
    pub closed spec fn stamp(&self) -> i64 {
        self.timestamp
    }

    /// Internal consistency: one entry per package id.
    pub closed spec fn wf(&self) -> bool {
        distinct_keys(self.rules@)
    }

    /// No rules.
    pub fn new(timestamp: i64) -> (r: ExternalRules)
        ensures
            r.wf(),
            r@ == Map::<Seq<char>, ExtRuleView>::empty(),
            r.stamp() == timestamp,
    {
        ExternalRules { timestamp, rules: Vec::new() }
    }

    /// Position of the entry for `k`.
    fn position(&self, k: &String) -> (r: Option<usize>)
        requires
            self.wf(),
        ensures
            r matches Some(i) ==> i < self.rules@.len() && self.rules@[i as int].0@ == k@,
            r is None ==> !self@.contains_key(k@),
    {
        let mut i: usize = 0;
        while i < self.rules.len()
            invariant
                0 <= i <= self.rules@.len(),
                forall|j: int| 0 <= j < i ==> (#[trigger] self.rules@[j]).0@ != k@,
            decreases self.rules@.len() - i,
        {
            if self.rules[i].0 == *k {
                return Some(i);
            }
            i += 1;
        }
        proof {
            lemma_entries_map_has(self.rules@, k@);
        }
        None
    }

    /// The rule for `package_id`, if any.
    pub fn get(&self, package_id: &str) -> (r: Option<&ExtRule>)
        requires
            self.wf(),
        ensures
            r.is_some() == self@.contains_key(package_id@),
            r matches Some(x) ==> x@ == self@[package_id@],
    {
        let k = String::from_str(package_id);
        match self.position(&k) {
            Some(i) => {
                proof {
                    lemma_entries_map_at(self.rules@, i as int);
                }
                Some(&self.rules[i].1)
            },
            None => None,
        }
    }

    /// Replace (or clear, when blank) the rule for one package.
    pub fn set(&mut self, package_id: &str, rule: ExtRule)
        requires
            old(self).wf(),
        ensures
            final(self).wf(),
            final(self).stamp() == old(self).stamp(),
            final(self)@ == if rule@.is_blank() {
                old(self)@.remove(package_id@)
            } else {
                old(self)@.insert(package_id@, rule@)
            },
    {
        let k = String::from_str(package_id);
        let blank = rule.load_after.len() == 0 && rule.load_before.len() == 0 && !rule.load_top
            && !rule.load_bottom;
        match self.position(&k) {
            Some(i) => {
                if blank {
                    proof {
                        lemma_entries_map_remove(self.rules@, i as int);
                    }
                    self.rules.remove(i);
                } else {
                    proof {
                        lemma_entries_map_update(self.rules@, i as int, (k, rule));
                    }
                    self.rules.set(i, (k, rule));
                }
            },
            None => {
                if blank {
                    assert(self@ =~= self@.remove(package_id@));
                } else {
                    self.put(k, rule);
                }
            },
        }
    }

    /// Store `rule` under `k`, replacing an earlier one (a blank rule is stored too).
    fn put(&mut self, k: String, rule: ExtRule)
        requires
            old(self).wf(),
        ensures
            final(self).wf(),
            final(self).stamp() == old(self).stamp(),
            final(self)@ == old(self)@.insert(k@, rule@),
    {
        match self.position(&k) {
            Some(i) => {
                proof {
                    lemma_entries_map_update(self.rules@, i as int, (k, rule));
                }
                self.rules.set(i, (k, rule));
            },
            None => {
                let ghost kk = k@;
                let ghost o = self.rules@;
                proof {
                    lemma_entries_map_has(o, kk);
                    assert(forall|j: int| 0 <= j < o.len() ==> #[trigger] o[j].0@ != kk);
                }
                self.rules.push((k, rule));
                proof {
                    let e = self.rules@;
                    assert(e.drop_last() == o);
                    assert(e[e.len() - 1].0@ == kk);
                    assert forall|a: int, b: int| 0 <= a < b < e.len() implies #[trigger] e[a].0@
                        != #[trigger] e[b].0@ by {
                        assert(e[a] == o[a]);
                        assert(o[a].0@ != kk);
                        if b < e.len() - 1 {
                            assert(e[b] == o[b]);
                        }
                    }
                    assert(self@ =~= entries_map(o).insert(kk, rule@));
                }
            },
        }
    }

    /// The rules of a parsed rules document (see `doc_rules`, `doc_stamp`).
    pub fn from_json(v: &Json) -> (r: ExternalRules)
        ensures
            r.wf(),
            r@ == doc_rules(v@),
            r.stamp() == doc_stamp(v@),
    {
        let timestamp: i64 = match v.get("timestamp") {
            Some(t) => match t.as_i64() {
                Some(n) => n,
                None => 0,
            },
            None => 0,
        };
        let mut out = ExternalRules::new(timestamp);
        proof {
            reveal_strlit("rules");
            reveal_strlit("timestamp");
        }
        if let Some(rs) = v.get("rules") {
            if let Json::Object(e) = rs {
                let ghost m = jmembers(e@);
                proof {
                    crate::json::lemma_jmembers(e@);
                }
                let mut i: usize = 0;
                while i < e.len()
                    invariant
                        0 <= i <= e@.len(),
                        m.len() == e@.len(),
                        forall|x: int| 0 <= x < e@.len() ==> #[trigger] m[x] == (e@[x].0@, crate::json::jv(e@[x].1)),
                        out.wf(),
                        out.stamp() == timestamp,
                        out@ == rules_map(m.take(i as int)),
                    decreases e@.len() - i,
                {
                    proof {
                        assert(m.take(i + 1).drop_last() == m.take(i as int));
                        assert(m.take(i + 1).last() == m[i as int]);
                    }
                    let k = to_lower(e[i].0.as_str());
                    let rule = rule_from(&e[i].1);
                    out.put(k, rule);
                    i += 1;
                }
                assert(m.take(m.len() as int) == m);
            }
        }
        out
    }

    /// `{"timestamp": n, "rules": {"pkg.id": {"loadAfter": {"other": {...}}, "loadTop": {"value": true}}}}`,
    /// read after leading byte-order marks. Tolerant: unknown keys and odd shapes are skipped;
    /// ids are lowercased. Text that is not JSON is an error.
    pub fn parse(text: &str) -> (r: Result<ExternalRules, Error>)
        ensures
            match json_doc(strip_bom(text@)) {
                Some(v) => r matches Ok(x) && x.wf() && x@ == doc_rules(v) && x.stamp()
                    == doc_stamp(v),
                None => r is Err,
            },
    {
        let t = crate::json::without_bom(text);
        match crate::json::parse_json(t.as_str()) {
            Ok(v) => Ok(ExternalRules::from_json(&v)),
            Err(m) => Err(json_error(m)),
        }
    }

    /// Number of packages with a rule.
    pub fn len(&self) -> (n: usize)
        requires
            self.wf(),
        ensures
            self@.dom().finite(),
            n == self@.dom().len(),
    {
        proof {
            lemma_entries_map_len(self.rules@);
        }
        self.rules.len()
    }

    /// A well-formed set of rules covers finitely many packages.
    pub proof fn lemma_finite(&self)
        requires
            self.wf(),
        ensures
            self@.dom().finite(),
    {
        lemma_entries_map_len(self.rules@);
    }

    /// No package has a rule.
    pub fn is_empty(&self) -> (b: bool)
        requires
            self.wf(),
        ensures
            b == (self@.dom().len() == 0),
    {
        self.len() == 0
    }
}


/// Setting a rule changes how many packages have rules by at most one: one more when a
/// non-blank rule is set for a package that had none, one fewer when a blank rule clears a
/// package that had one, no change otherwise.
pub proof fn law_len_after_set(before: &ExternalRules, after: &ExternalRules, package_id: Seq<char>, rule: ExtRuleView)
    requires
        before.wf(),
        after.wf(),
        after@ == if rule.is_blank() { before@.remove(package_id) } else { before@.insert(package_id, rule) },
    ensures
        after@.dom().len() == before@.dom().len()
            + (if !rule.is_blank() && !before@.dom().contains(package_id) { 1int } else { 0int })
            - (if rule.is_blank() && before@.dom().contains(package_id) { 1int } else { 0int }),
{
    before.lemma_finite();
    after.lemma_finite();
    if rule.is_blank() {
        assert(after@.dom() == before@.dom().remove(package_id));
    } else {
        assert(after@.dom() == before@.dom().insert(package_id));
    }
}

} // verus!

verus! {

/// A recommended replacement ("Use This Instead" database), keyed by the old Workshop id.
#[derive(Debug, Clone)]
pub struct Replacement {
    pub new_name: String,
    pub new_author: String,
    pub new_workshop_id: String,
    pub new_package_id: String,
}

impl Replacement {
    /// A replacement with every field empty.
    pub fn empty() -> (r: Replacement)
        ensures
            r.new_name@.len() == 0,
            r.new_author@.len() == 0,
            r.new_workshop_id@.len() == 0,
            r.new_package_id@.len() == 0,
    {
        Replacement { new_name: String::new(), new_author: String::new(), new_workshop_id: String::new(), new_package_id: String::new() }
    }
}

/// The contents of a `Replacement`.
pub struct ReplacementView {
    pub new_name: Seq<char>,
    pub new_author: Seq<char>,
    pub new_workshop_id: Seq<char>,
    pub new_package_id: Seq<char>,
}

impl View for Replacement {
    type V = ReplacementView;

    open spec fn view(&self) -> ReplacementView {
        ReplacementView {
            new_name: self.new_name@,
            new_author: self.new_author@,
            new_workshop_id: self.new_workshop_id@,
            new_package_id: self.new_package_id@,
        }
    }
}

/// A string member of `r`, or empty.
pub open spec fn text_field(r: JsonV, k: Seq<char>) -> Seq<char> {
    match str_of(field(r, k)) {
        Some(t) => t,
        None => Seq::empty(),
    }
}

/// The replacement one entry of `rules` describes.
pub open spec fn replacement_of(r: JsonV) -> ReplacementView {
    ReplacementView {
        new_name: text_field(r, "newName"@),
        new_author: text_field(r, "newAuthor"@),
        new_workshop_id: text_field(r, "newWorkshopId"@),
        new_package_id: text_field(r, "newPackageId"@),
    }
}

/// Entries with a non-empty `oldWorkshopId`, keyed by it; a later entry wins.
pub open spec fn replacements_of(items: Seq<JsonV>) -> Map<Seq<char>, ReplacementView>
    decreases items.len(),
{
    if items.len() == 0 {
        Map::empty()
    } else {
        let m = replacements_of(items.drop_last());
        let old = text_field(items.last(), "oldWorkshopId"@);
        if old.len() == 0 {
            m
        } else {
            m.insert(old, replacement_of(items.last()))
        }
    }
}

/// The replacements a document holds: the entries of an array `rules`, else none.
pub open spec fn doc_replacements(v: JsonV) -> Map<Seq<char>, ReplacementView> {
    match field(v, "rules"@) {
        Some(JsonV::Array(a)) => replacements_of(a),
        _ => Map::empty(),
    }
}

/// `e` lists exactly the entries of `m`, each key once.
pub open spec fn lists_map(e: Seq<(String, Replacement)>, m: Map<Seq<char>, ReplacementView>) -> bool {
    &&& forall|i: int, j: int| 0 <= i < j < e.len() ==> #[trigger] e[i].0@ != #[trigger] e[j].0@
    &&& forall|i: int| 0 <= i < e.len() ==> m.contains_key(#[trigger] e[i].0@) && m[e[i].0@] == e[i].1@
    &&& forall|k: Seq<char>| m.contains_key(k) ==> exists|i: int| 0 <= i < e.len() && #[trigger] e[i].0@ == k
}

/// The gzip magic number opens `b`.
pub open spec fn is_gzip(b: Seq<u8>) -> bool {
    b.len() >= 2 && b[0] == 0x1f && b[1] == 0x8b
}

/// The text a gzip stream holds, or `None` where `flate2` reports an error (a broken stream,
/// or contents that are not UTF-8).
pub uninterp spec fn gunzipped(b: Seq<u8>) -> Option<Seq<char>>;

/// Reads `b` through `flate2::read::GzDecoder` into a string; the error message is the
/// `std::io::Error`'s, of which nothing is claimed.
#[verifier::external_body]
fn gunzip_text(b: &[u8]) -> (r: Result<String, String>)
    ensures
        match r {
            Ok(t) => gunzipped(b@) == Some(t@),
            Err(_) => gunzipped(b@) is None,
        },
{
    let mut s = String::new();
    flate2::read::GzDecoder::new(b).read_to_string(&mut s).map(|_| s).map_err(|e| e.to_string())
}

/// A string member of `r`, or empty.
fn text_from(r: &Json, k: &str) -> (t: String)
    ensures
        t@ == text_field(r@, k@),
{
    match r.get(k) {
        Some(x) => match x.as_str() {
            Some(v) => v.clone(),
            None => String::new(),
        },
        None => String::new(),
    }
}

/// The replacements of a parsed "Use This Instead" document.
pub fn replacements_from_json(v: &Json) -> (r: Vec<(String, Replacement)>)
    ensures
        lists_map(r@, doc_replacements(v@)),
{
    let mut out: Vec<(String, Replacement)> = Vec::new();
    proof {
        reveal_strlit("rules");
        reveal_strlit("oldWorkshopId");
        reveal_strlit("newName");
        reveal_strlit("newAuthor");
        reveal_strlit("newWorkshopId");
        reveal_strlit("newPackageId");
    }
    if let Some(Json::Array(a)) = v.get("rules") {
        let ghost items = jvs(a@);
        proof {
            crate::json::lemma_jvs(a@);
        }
        let mut i: usize = 0;
        while i < a.len()
            invariant
                0 <= i <= a@.len(),
                items.len() == a@.len(),
                forall|x: int| 0 <= x < a@.len() ==> #[trigger] items[x] == crate::json::jv(a@[x]),
                lists_map(out@, replacements_of(items.take(i as int))),
            decreases a@.len() - i,
        {
            proof {
                assert(items.take(i + 1).drop_last() == items.take(i as int));
                assert(items.take(i + 1).last() == items[i as int]);
            }
            let ghost m = replacements_of(items.take(i as int));
            let old = text_from(&a[i], "oldWorkshopId");
            if !old.as_str().is_empty() {
                let rep = Replacement {
                    new_name: text_from(&a[i], "newName"),
                    new_author: text_from(&a[i], "newAuthor"),
                    new_workshop_id: text_from(&a[i], "newWorkshopId"),
                    new_package_id: text_from(&a[i], "newPackageId"),
                };
                let ghost m2 = m.insert(old@, rep@);
                assert(m2 == replacements_of(items.take(i + 1)));
                let mut p: usize = 0;
                let mut found = false;
                while p < out.len() && !found
                    invariant
                        0 <= p <= out@.len(),
                        found ==> p < out@.len() && out@[p as int].0@ == old@,
                        !found ==> forall|j: int| 0 <= j < p ==> (#[trigger] out@[j]).0@ != old@,
                    decreases out@.len() - p, (if found { 0int } else { 1int }),
                {
                    if crate::text::str_eq(out[p].0.as_str(), old.as_str()) {
                        found = true;
                    } else {
                        p += 1;
                    }
                }
                let ghost o = out@;
                if found {
                    out.set(p, (old, rep));
                    proof {
                        let e = out@;
                        assert forall|x: int, y: int| 0 <= x < y < e.len() implies #[trigger] e[x].0@ != #[trigger] e[y].0@ by {
                            assert(o[x].0@ != o[y].0@);
                        }
                        assert forall|x: int| 0 <= x < e.len() implies m2.contains_key(#[trigger] e[x].0@) && m2[e[x].0@] == e[x].1@ by {
                            if x != p {
                                assert(o[x].0@ != o[p as int].0@);
                                assert(e[x] == o[x]);
                            }
                        }
                        assert forall|k: Seq<char>| m2.contains_key(k) implies exists|x: int| 0 <= x < e.len() && #[trigger] e[x].0@ == k by {
                            if k == old@ {
                                assert(e[p as int].0@ == k);
                            } else {
                                let x = choose|x: int| 0 <= x < o.len() && #[trigger] o[x].0@ == k;
                                assert(e[x].0@ == k);
                            }
                        }
                    }
                } else {
                    out.push((old, rep));
                    proof {
                        let e = out@;
                        assert forall|x: int, y: int| 0 <= x < y < e.len() implies #[trigger] e[x].0@ != #[trigger] e[y].0@ by {
                            assert(e[x] == o[x]);
                            if y < o.len() {
                                assert(e[y] == o[y]);
                            }
                        }
                        assert forall|x: int| 0 <= x < e.len() implies m2.contains_key(#[trigger] e[x].0@) && m2[e[x].0@] == e[x].1@ by {
                            if x < o.len() {
                                assert(e[x] == o[x]);
                            }
                        }
                        assert forall|k: Seq<char>| m2.contains_key(k) implies exists|x: int| 0 <= x < e.len() && #[trigger] e[x].0@ == k by {
                            if k == old@ {
                                assert(e[o.len() as int].0@ == k);
                            } else {
                                let x = choose|x: int| 0 <= x < o.len() && #[trigger] o[x].0@ == k;
                                assert(e[x] == o[x]);
                            }
                        }
                    }
                }
            }
            i += 1;
        }
        assert(items.take(items.len() as int) == items);
    }
    out
}

/// Parse `{"rules": [{"oldWorkshopId": ..., "newName": ...}]}`, from gzipped bytes when they
/// start with the gzip magic number, else from text of any encoding `decode_bytes` reads.
pub fn parse_replacements(bytes: &[u8]) -> (r: Result<Vec<(String, Replacement)>, Error>)
    ensures
        ({
            let text = if is_gzip(bytes@) {
                gunzipped(bytes@)
            } else {
                Some(crate::xml::decoded_text(bytes@))
            };
            match text {
                Some(t) => match json_doc(strip_bom(t)) {
                    Some(v) => r matches Ok(x) && lists_map(x@, doc_replacements(v)),
                    None => r is Err,
                },
                None => r is Err,
            }
        }),
{
    let text = if bytes.len() >= 2 && bytes[0] == 0x1f && bytes[1] == 0x8b {
        match gunzip_text(bytes) {
            Ok(t) => t,
            Err(m) => {
                let mut e = String::from_str("replacements gzip: ");
                e.append(m.as_str());
                return Err(Error::Other(e));
            },
        }
    } else {
        crate::xml::decode_bytes(bytes)
    };
    let t = crate::json::without_bom(text.as_str());
    match crate::json::parse_json(t.as_str()) {
        Ok(v) => Ok(replacements_from_json(&v)),
        Err(m) => Err(json_error(m)),
    }
}

/// Strictly increasing: sorted, nothing twice.
pub open spec fn strictly_ascending(s: Seq<Seq<char>>) -> bool {
    forall|i: int, j: int| 0 <= i < j < s.len() ==> lex_lt(#[trigger] s[i], #[trigger] s[j])
}

/// `v` (sorted) without repeats.
pub fn dedup_sorted(v: Vec<String>) -> (r: Vec<String>)
    requires
        crate::sort::ascending(sv(v@)),
    ensures
        strictly_ascending(sv(r@)),
        forall|x: Seq<char>| sv(r@).contains(x) <==> sv(v@).contains(x),
{
    let mut out: Vec<String> = Vec::new();
    let mut i: usize = 0;
    while i < v.len()
        invariant
            0 <= i <= v@.len(),
            crate::sort::ascending(sv(v@)),
            strictly_ascending(sv(out@)),
            forall|x: Seq<char>| sv(out@).contains(x) <==> sv(v@.take(i as int)).contains(x),
            i > 0 ==> out@.len() > 0 && out@[out@.len() - 1]@ == v@[i - 1]@,
            i == 0 ==> out@.len() == 0,
        decreases v@.len() - i,
    {
        let ghost o = out@;
        proof {
            assert(sv(v@.take(i + 1)) == sv(v@.take(i as int)).push(v@[i as int]@));
        }
        if i == 0 || !crate::text::str_eq(out[out.len() - 1].as_str(), v[i].as_str()) {
            out.push(v[i].clone());
            proof {
                assert(sv(out@) == sv(o).push(v@[i as int]@));
                assert forall|x: Seq<char>| sv(out@).contains(x) <==> sv(v@.take(i + 1)).contains(x) by {
                    vstd::seq_lib::lemma_seq_contains_after_push(sv(o), v@[i as int]@, x);
                    vstd::seq_lib::lemma_seq_contains_after_push(sv(v@.take(i as int)), v@[i as int]@, x);
                }
                if i > 0 {
                    let last = v@[i - 1]@;
                    assert(!lex_lt(sv(v@)[i as int], sv(v@)[i - 1]));
                    crate::text::lemma_lex_total(last, v@[i as int]@);
                    assert forall|a: int, b: int| 0 <= a < b < sv(out@).len() implies lex_lt(#[trigger] sv(out@)[a], #[trigger] sv(out@)[b]) by {
                        if b == sv(out@).len() - 1 && a < b - 1 {
                            assert(lex_lt(sv(o)[a], sv(o)[o.len() - 1]));
                            crate::text::lemma_lex_trans(sv(o)[a], last, v@[i as int]@);
                        }
                    }
                }
            }
        } else {
            proof {
                assert(sv(o).contains(v@[i as int]@)) by {
                    assert(sv(o)[o.len() - 1] == v@[i as int]@);
                }
                assert forall|x: Seq<char>| sv(out@).contains(x) <==> sv(v@.take(i + 1)).contains(x) by {
                    vstd::seq_lib::lemma_seq_contains_after_push(sv(v@.take(i as int)), v@[i as int]@, x);
                }
            }
        }
        i += 1;
    }
    assert(v@.take(v@.len() as int) == v@);
    out
}

/// The text `ignore.json` starts with when there is none.
pub open spec fn ignore_description() -> Seq<char> {
    "Mods to ignore when checking for missing properties (identified by packageid)"@
}

/// The document `write_ignore` edits: the given text's JSON object, else a fresh one with a
/// description.
pub open spec fn ignore_base(existing: Option<Seq<char>>) -> JsonV {
    let fresh = JsonV::Object(seq![("description"@, JsonV::Str(ignore_description()))]);
    match existing {
        Some(t) => match json_doc(strip_bom(t)) {
            Some(v) => if v is Object {
                v
            } else {
                fresh
            },
            None => fresh,
        },
        None => fresh,
    }
}

/// The lowercased strings of an `ignored_mods` array, without `pid`.
pub open spec fn kept_ignored(items: Seq<JsonV>, pid: Seq<char>) -> Seq<Seq<char>>
    decreases items.len(),
{
    if items.len() == 0 {
        Seq::empty()
    } else {
        let k = kept_ignored(items.drop_last(), pid);
        match items.last() {
            JsonV::Str(t) => if lowercase(t) != pid {
                k.push(lowercase(t))
            } else {
                k
            },
            _ => k,
        }
    }
}

/// The ids the new `ignored_mods` holds.
pub open spec fn ignore_ids(base: JsonV, pid: Seq<char>, ignored: bool) -> Seq<Seq<char>> {
    let items = match field(base, "ignored_mods"@) {
        Some(JsonV::Array(a)) => a,
        _ => Seq::empty(),
    };
    let kept = kept_ignored(items, pid);
    if ignored {
        kept.push(lowercase(pid))
    } else {
        kept
    }
}

/// An array of strings.
pub open spec fn str_array(ids: Seq<Seq<char>>) -> JsonV {
    JsonV::Array(ids.map_values(|t: Seq<char>| JsonV::Str(t)))
}

/// `d` is `base` with `ignored_mods` replaced by the sorted, deduplicated `ignore_ids`.
pub open spec fn ignore_doc_ok(d: JsonV, base: JsonV, pid: Seq<char>, ignored: bool) -> bool {
    &&& d is Object
    &&& forall|k: Seq<char>| k != "ignored_mods"@ ==> #[trigger] field(d, k) == field(base, k)
    &&& exists|ids: Seq<Seq<char>>|
        #![trigger str_array(ids)]
        field(d, "ignored_mods"@) == Some(str_array(ids)) && strictly_ascending(ids) && (forall|x: Seq<char>| ids.contains(x) <==> ignore_ids(base, pid, ignored).contains(x))
}

/// The view of an optional string.
pub open spec fn opt_text(t: Option<&str>) -> Option<Seq<char>> {
    match t {
        Some(x) => Some(x@),
        None => None,
    }
}

/// The members of the JSON object `existing` holds, else `None`.
fn object_members(existing: Option<&str>) -> (r: Option<Vec<(String, Json)>>)
    ensures
        match r {
            Some(m) => (match existing {
                Some(t) => json_doc(strip_bom(t@)) == Some(JsonV::Object(jmembers(m@))),
                None => false,
            }),
            None => match existing {
                Some(t) => !(json_doc(strip_bom(t@)) matches Some(v) && v is Object),
                None => true,
            },
        },
{
    match existing {
        Some(t) => {
            let b = crate::json::without_bom(t);
            match crate::json::parse_json(b.as_str()) {
                Ok(Json::Object(m)) => Some(m),
                _ => None,
            }
        },
        None => None,
    }
}

/// The members of an optional object.
pub open spec fn opt_members(m: Option<Vec<(String, Json)>>) -> Option<Seq<(Seq<char>, JsonV)>> {
    match m {
        Some(v) => Some(jmembers(v@)),
        None => None,
    }
}

/// The document an `ignore.json` update starts from: the existing object's members, else a
/// fresh document with only the description.
pub open spec fn ignore_base_of(m: Option<Seq<(Seq<char>, JsonV)>>) -> JsonV {
    match m {
        Some(e) => JsonV::Object(e),
        None => JsonV::Object(seq![("description"@, JsonV::Str(ignore_description()))]),
    }
}

/// The `ignore.json` document with `package_id` added (`ignored`) or removed.
pub fn ignore_doc(existing: Option<&str>, package_id: &str, ignored: bool) -> (d: Json)
    ensures
        ignore_doc_ok(d@, ignore_base(opt_text(existing)), package_id@, ignored),
{
    let m = object_members(existing);
    assert(ignore_base(opt_text(existing)) == ignore_base_of(opt_members(m)));
    ignore_doc_from(m, package_id, ignored)
}

/// The `ignore.json` document with `package_id` added (`ignored`) or removed, built on the
/// members of the existing document (`None` when there is none, or it is not a JSON object).
pub fn ignore_doc_from(existing: Option<Vec<(String, Json)>>, package_id: &str, ignored: bool) -> (d: Json)
    ensures
        ignore_doc_ok(d@, ignore_base_of(opt_members(existing)), package_id@, ignored),
{
    proof {
        reveal_strlit("ignored_mods");
        reveal_strlit("description");
    }
    let ghost ex = opt_members(existing);
    let members = match existing {
        Some(m) => m,
        None => {
            let mut m: Vec<(String, Json)> = Vec::new();
            let key = String::from_str("description");
            let val = crate::json::json_str("Mods to ignore when checking for missing properties (identified by packageid)");
            assert(key@ == "description"@);
            assert(val@ == JsonV::Str(ignore_description()));
            m.push((key, val));
            proof {
                assert(m@.drop_last() == Seq::<(String, Json)>::empty());
                assert(jmembers(m@.drop_last()) == Seq::<(Seq<char>, JsonV)>::empty());
                assert(m@.last() == (key, val));
                assert(jmembers(m@) =~= seq![("description"@, JsonV::Str(ignore_description()))]);
            }
            m
        },
    };
    let ghost base = JsonV::Object(jmembers(members@));
    assert(base == ignore_base_of(ex));
    let mut ids: Vec<String> = Vec::new();
    let ghost mut items: Seq<JsonV> = Seq::empty();
    let mut k: usize = 0;
    let ghost mm = jmembers(members@);
    proof {
        crate::json::lemma_jmembers(members@);
    }
    let mut pos: usize = members.len();
    assert(mm.subrange(0, mm.len() as int) == mm);
    while k < members.len()
        invariant
            0 <= k <= members@.len(),
            mm == jmembers(members@),
            mm.len() == members@.len(),
            forall|x: int| 0 <= x < members@.len() ==> #[trigger] mm[x] == (members@[x].0@, crate::json::jv(members@[x].1)),
            pos <= members@.len(),
            pos < members@.len() ==> members@[pos as int].0@ == "ignored_mods"@ && crate::json::lookup(mm, "ignored_mods"@) == Some(mm[pos as int].1),
            pos == members@.len() ==> crate::json::lookup(mm, "ignored_mods"@) == crate::json::lookup(mm.subrange(k as int, mm.len() as int), "ignored_mods"@),
        decreases members@.len() - k,
    {
        if pos == members.len() {
            proof {
                assert(mm.subrange(k as int, mm.len() as int).drop_first() == mm.subrange(k + 1, mm.len() as int));
                assert(mm.subrange(k as int, mm.len() as int)[0] == mm[k as int]);
            }
            if crate::text::str_eq(members[k].0.as_str(), "ignored_mods") {
                pos = k;
            }
        }
        k += 1;
    }
    proof {
        if pos == members.len() {
            assert(crate::json::lookup(mm.subrange(k as int, mm.len() as int), "ignored_mods"@) is None);
        }
    }
    if pos < members.len() {
        if let Json::Array(a) = &members[pos].1 {
            let ghost av = jvs(a@);
            proof {
                crate::json::lemma_jvs(a@);
                assert(field(base, "ignored_mods"@) == Some(JsonV::Array(av)));
            }
            let mut i: usize = 0;
            while i < a.len()
                invariant
                    0 <= i <= a@.len(),
                    av.len() == a@.len(),
                    forall|x: int| 0 <= x < a@.len() ==> #[trigger] av[x] == crate::json::jv(a@[x]),
                    sv(ids@) == kept_ignored(av.take(i as int), package_id@),
                decreases a@.len() - i,
            {
                proof {
                    assert(av.take(i + 1).drop_last() == av.take(i as int));
                    assert(av.take(i + 1).last() == av[i as int]);
                }
                if let Json::Str(t) = &a[i] {
                    let l = to_lower(t.as_str());
                    if !crate::text::str_eq(l.as_str(), package_id) {
                        let ghost o = ids@;
                        ids.push(l);
                        proof {
                            assert(sv(ids@) == sv(o).push(l@));
                        }
                    }
                }
                i += 1;
            }
            assert(av.take(av.len() as int) == av);
        }
    }
    if ignored {
        let ghost o = ids@;
        let l = to_lower(package_id);
        ids.push(l);
        proof {
            assert(sv(ids@) == sv(o).push(l@));
        }
    }
    assert(sv(ids@) == ignore_ids(base, package_id@, ignored));
    let sorted = crate::sort::sort_strings(ids);
    proof {
        assert forall|x: Seq<char>| sv(sorted@).contains(x) <==> sv(ids@).contains(x) by {
            sv(sorted@).to_multiset_ensures();
            sv(ids@).to_multiset_ensures();
            assert(sv(sorted@).to_multiset().count(x) == sv(ids@).to_multiset().count(x));
        }
    }
    let uniq = dedup_sorted(sorted);
    let mut arr: Vec<Json> = Vec::new();
    let mut j: usize = 0;
    while j < uniq.len()
        invariant
            0 <= j <= uniq@.len(),
            jvs(arr@) == sv(uniq@).take(j as int).map_values(|t: Seq<char>| JsonV::Str(t)),
        decreases uniq@.len() - j,
    {
        let ghost o = arr@;
        arr.push(crate::json::json_str(uniq[j].as_str()));
        proof {
            assert(arr@.drop_last() == o);
            assert(sv(uniq@).take(j + 1) == sv(uniq@).take(j as int).push(uniq@[j as int]@));
            assert(jvs(arr@) =~= sv(uniq@).take(j + 1).map_values(|t: Seq<char>| JsonV::Str(t)));
        }
        j += 1;
    }
    proof {
        assert(sv(uniq@).take(sv(uniq@).len() as int) == sv(uniq@));
    }
    let out = crate::json::with_member(members, String::from_str("ignored_mods"), Json::Array(arr));
    proof {
        let d = JsonV::Object(jmembers(out@));
        assert(field(d, "ignored_mods"@) == Some(str_array(sv(uniq@))));
    }
    Json::Object(out)
}

/// Add (`ignored`) or remove `package_id` in an `ignore.json` document (`ignored_mods`
/// array, lowercased, sorted, without repeats), keeping its other members; text that is not
/// a JSON object starts a fresh document.
pub fn write_ignore(existing: Option<&str>, package_id: &str, ignored: bool) -> (r: Result<String, Error>)
    ensures
        r matches Ok(t) && exists|d: JsonV|
            #![trigger json_pretty(d)]
            t@ == json_pretty(d) && ignore_doc_ok(d, ignore_base(opt_text(existing)), package_id@, ignored),
{
    let d = ignore_doc(existing, package_id, ignored);
    match crate::json::to_pretty(&d) {
        Some(t) => Ok(t),
        None => Err(Error::Other(String::from_str("JSON: the document could not be written"))),
    }
}

/// The members of an object value; none for anything else.
pub open spec fn members(j: Option<JsonV>) -> Seq<(Seq<char>, JsonV)> {
    match j {
        Some(JsonV::Object(e)) => e,
        _ => Seq::empty(),
    }
}

/// Position of the first member whose name equals `id` ignoring ASCII case (-1 if none).
pub open spec fn first_ci(e: Seq<(Seq<char>, JsonV)>, id: Seq<char>) -> int
    decreases e.len(),
{
    if e.len() == 0 {
        -1
    } else if eq_ignore_case(e[0].0, id) {
        0
    } else {
        let r = first_ci(e.drop_first(), id);
        if r < 0 {
            -1
        } else {
            r + 1
        }
    }
}

/// The `{"name": .., "comment": ""}` a new rule target gets.
pub open spec fn name_entry(name: Seq<char>) -> JsonV {
    JsonV::Object(seq![("name"@, JsonV::Str(name)), ("comment"@, JsonV::Str(Seq::empty()))])
}

/// The members of a new `loadAfter`/`loadBefore` object for the first `n` ids: an id that an
/// old member names (ignoring case) keeps that member; another gets a fresh entry with its
/// name. A later id for the same member wins.
pub open spec fn load_members(
    old: Seq<(Seq<char>, JsonV)>,
    ids: Seq<Seq<char>>,
    names: Seq<Seq<char>>,
    n: int,
) -> Seq<(Seq<char>, JsonV)>
    decreases n,
{
    if n <= 0 {
        Seq::empty()
    } else {
        let acc = load_members(old, ids, names, n - 1);
        let p = first_ci(old, ids[n - 1]);
        if p >= 0 {
            put(acc, old[p].0, old[p].1)
        } else {
            put(acc, ids[n - 1], name_entry(names[n - 1]))
        }
    }
}

/// The entry with its list member `f` rewritten for `ids`: dropped when there are none.
pub open spec fn with_list(
    entry: Seq<(Seq<char>, JsonV)>,
    f: Seq<char>,
    ids: Seq<Seq<char>>,
    names: Seq<Seq<char>>,
) -> Seq<(Seq<char>, JsonV)> {
    let new = load_members(members(crate::json::lookup(entry, f)), ids, names, ids.len() as int);
    if new.len() == 0 {
        drop_key(entry, f)
    } else {
        put(entry, f, JsonV::Object(new))
    }
}

/// The entry with flag `f` set to `{"value": true, "comment": <old comment or "">}`, or dropped.
pub open spec fn with_flag(entry: Seq<(Seq<char>, JsonV)>, f: Seq<char>, on: bool) -> Seq<(Seq<char>, JsonV)> {
    if on {
        let comment = match field_of(crate::json::lookup(entry, f), "comment"@) {
            Some(c) => c,
            None => JsonV::Str(Seq::empty()),
        };
        put(entry, f, JsonV::Object(seq![("value"@, JsonV::Bool(true)), ("comment"@, comment)]))
    } else {
        drop_key(entry, f)
    }
}

/// The members of the document `write_user_rule` edits: the given text's JSON object, else
/// `{"timestamp": 0, "rules": {}}`.
pub open spec fn user_base(existing: Option<Seq<char>>) -> Seq<(Seq<char>, JsonV)> {
    let fresh = seq![("timestamp"@, JsonV::Number("0"@)), ("rules"@, JsonV::Object(Seq::empty()))];
    match existing {
        Some(t) => match json_doc(strip_bom(t)) {
            Some(JsonV::Object(e)) => e,
            _ => fresh,
        },
        None => fresh,
    }
}

/// The rules document after writing `rule` for `pid` at time `secs`: the entry (found by
/// package id ignoring case) gets the new lists and flags, keeping the members of targets that
/// stay and the comments of flags that stay; an entry left empty goes; other members stay.
pub open spec fn user_rule_result(
    base: Seq<(Seq<char>, JsonV)>,
    pid: Seq<char>,
    rule: ExtRuleView,
    after_names: Seq<Seq<char>>,
    before_names: Seq<Seq<char>>,
    secs: nat,
) -> JsonV {
    let rules = members(crate::json::lookup(base, "rules"@));
    let p = first_ci(rules, pid);
    let key = if p >= 0 {
        rules[p].0
    } else {
        pid
    };
    let e0 = members(crate::json::lookup(rules, key));
    let e1 = with_list(e0, "loadAfter"@, rule.load_after, after_names);
    let e2 = with_list(e1, "loadBefore"@, rule.load_before, before_names);
    let e3 = with_flag(e2, "loadTop"@, rule.load_top);
    let e4 = with_flag(e3, "loadBottom"@, rule.load_bottom);
    let rules2 = if e4.len() == 0 {
        drop_key(rules, key)
    } else {
        put(rules, key, JsonV::Object(e4))
    };
    JsonV::Object(
        put(put(base, "rules"@, JsonV::Object(rules2)), "timestamp"@, JsonV::Number(crate::error::decimal(secs))),
    )
}

/// A copy of the members of an object value; none for anything else.
fn members_copy(j: Option<&Json>) -> (r: Vec<(String, Json)>)
    ensures
        jmembers(r@) == members(match j {
            Some(x) => Some(x@),
            None => None,
        }),
{
    match j {
        Some(x) => match x {
            Json::Object(_) => {
                let c = x.copy();
                match c {
                    Json::Object(e) => e,
                    _ => Vec::new(),
                }
            },
            _ => Vec::new(),
        },
        None => Vec::new(),
    }
}

/// Position of the first member named `id` ignoring ASCII case.
fn find_ci(e: &Vec<(String, Json)>, id: &str) -> (r: Option<usize>)
    ensures
        match r {
            Some(p) => p < e@.len() && first_ci(jmembers(e@), id@) == p,
            None => first_ci(jmembers(e@), id@) < 0,
        },
{
    let ghost m = jmembers(e@);
    proof {
        crate::json::lemma_jmembers(e@);
    }
    let mut i: usize = 0;
    assert(m.subrange(0, m.len() as int) == m);
    while i < e.len()
        invariant
            0 <= i <= e@.len(),
            m == jmembers(e@),
            m.len() == e@.len(),
            forall|x: int| 0 <= x < e@.len() ==> #[trigger] m[x] == (e@[x].0@, crate::json::jv(e@[x].1)),
            first_ci(m, id@) == (if first_ci(m.subrange(i as int, m.len() as int), id@) < 0 {
                -1
            } else {
                first_ci(m.subrange(i as int, m.len() as int), id@) + i
            }),
        decreases e@.len() - i,
    {
        proof {
            assert(m.subrange(i as int, m.len() as int).drop_first() == m.subrange(i + 1, m.len() as int));
            assert(m.subrange(i as int, m.len() as int)[0] == m[i as int]);
        }
        if crate::text::eq_ignore_ascii_case(e[i].0.as_str(), id) {
            return Some(i);
        }
        i += 1;
    }
    None
}

/// The members of a new `loadAfter`/`loadBefore` object (see `load_members`).
fn new_load_members(old: &Vec<(String, Json)>, ids: &Vec<String>, names: &Vec<String>) -> (r: Vec<(String, Json)>)
    requires
        names@.len() == ids@.len(),
    ensures
        jmembers(r@) == load_members(jmembers(old@), sv(ids@), sv(names@), ids@.len() as int),
{
    let ghost om = jmembers(old@);
    proof {
        crate::json::lemma_jmembers(old@);
    }
    let mut out: Vec<(String, Json)> = Vec::new();
    let mut i: usize = 0;
    while i < ids.len()
        invariant
            0 <= i <= ids@.len(),
            names@.len() == ids@.len(),
            om == jmembers(old@),
            om.len() == old@.len(),
            forall|x: int| 0 <= x < old@.len() ==> #[trigger] om[x] == (old@[x].0@, crate::json::jv(old@[x].1)),
            jmembers(out@) == load_members(om, sv(ids@), sv(names@), i as int),
        decreases ids@.len() - i,
    {
        match find_ci(old, ids[i].as_str()) {
            Some(p) => {
                let k = old[p].0.clone();
                let v = old[p].1.copy();
                out = crate::json::with_member(out, k, v);
            },
            None => {
                let mut nm: Vec<(String, Json)> = Vec::new();
                let k1 = String::from_str("name");
                let v1 = crate::json::json_str(names[i].as_str());
                let k2 = String::from_str("comment");
                let v2 = crate::json::json_str("");
                proof {
                    reveal_strlit("name");
                    reveal_strlit("comment");
                    reveal_strlit("");
                    assert(""@ =~= Seq::<char>::empty());
                }
                nm.push((k1, v1));
                nm.push((k2, v2));
                proof {
                    crate::json::lemma_jmembers_two(nm@);
                    assert(jmembers(nm@) =~= seq![("name"@, JsonV::Str(names@[i as int]@)), ("comment"@, JsonV::Str(Seq::empty()))]);
                }
                let k = ids[i].clone();
                out = crate::json::with_member(out, k, Json::Object(nm));
            },
        }
        i += 1;
    }
    out
}

/// The entry with its list member `f` rewritten for `ids` (see `with_list`).
fn set_list(entry: Vec<(String, Json)>, f: &str, ids: &Vec<String>, names: &Vec<String>) -> (r: Vec<(String, Json)>)
    requires
        names@.len() == ids@.len(),
    ensures
        jmembers(r@) == with_list(jmembers(entry@), f@, sv(ids@), sv(names@)),
{
    let ghost em = jmembers(entry@);
    let old = members_copy(Json::get_member(&entry, f));
    let new = new_load_members(&old, ids, names);
    if new.len() == 0 {
        proof {
            assert(jmembers(new@).len() == 0) by {
                crate::json::lemma_jmembers(new@);
            }
        }
        crate::json::without_member(entry, f)
    } else {
        proof {
            crate::json::lemma_jmembers(new@);
        }
        crate::json::with_member(entry, String::from_str(f), Json::Object(new))
    }
}

/// The entry with flag `f` set or dropped (see `with_flag`).
fn set_flag(entry: Vec<(String, Json)>, f: &str, on: bool) -> (r: Vec<(String, Json)>)
    ensures
        jmembers(r@) == with_flag(jmembers(entry@), f@, on),
{
    if on {
        proof {
            reveal_strlit("comment");
            reveal_strlit("value");
            reveal_strlit("");
            assert(""@ =~= Seq::<char>::empty());
        }
        let comment = match Json::get_member(&entry, f) {
            Some(x) => match x.get("comment") {
                Some(c) => c.copy(),
                None => crate::json::json_str(""),
            },
            None => crate::json::json_str(""),
        };
        let mut m: Vec<(String, Json)> = Vec::new();
        let k1 = String::from_str("value");
        let k2 = String::from_str("comment");
        let ghost cv = comment@;
        m.push((k1, Json::Bool(true)));
        m.push((k2, comment));
        proof {
            crate::json::lemma_jmembers_two(m@);
            assert(jmembers(m@) =~= seq![("value"@, JsonV::Bool(true)), ("comment"@, cv)]);
        }
        crate::json::with_member(entry, String::from_str(f), Json::Object(m))
    } else {
        crate::json::without_member(entry, f)
    }
}

/// The members of the JSON object `existing` holds, else `{"timestamp": 0, "rules": {}}`.
fn user_base_members(existing: Option<&str>) -> (r: Vec<(String, Json)>)
    ensures
        jmembers(r@) == user_base(opt_text(existing)),
{
    match object_members(existing) {
        Some(m) => m,
        None => {
            proof {
                reveal_strlit("timestamp");
                reveal_strlit("rules");
                reveal_strlit("0");
            }
            let mut m: Vec<(String, Json)> = Vec::new();
            m.push((String::from_str("timestamp"), Json::Number(String::from_str("0"))));
            m.push((String::from_str("rules"), Json::Object(Vec::new())));
            proof {
                crate::json::lemma_jmembers_two(m@);
                assert(jmembers(Seq::<(String, Json)>::empty()) == Seq::<(Seq<char>, JsonV)>::empty());
                assert(jmembers(m@) =~= seq![("timestamp"@, JsonV::Number("0"@)), ("rules"@, JsonV::Object(Seq::empty()))]);
            }
            m
        },
    }
}

/// The rules document with `rule` written for `package_id` at time `secs` (see
/// `user_rule_result`); `after_names[i]` is the display name of `rule.load_after[i]`, and
/// likewise `before_names`.
pub fn user_rule_doc(
    existing: Option<&str>,
    package_id: &str,
    rule: &ExtRule,
    after_names: &Vec<String>,
    before_names: &Vec<String>,
    secs: u64,
) -> (d: Json)
    requires
        after_names@.len() == rule.load_after@.len(),
        before_names@.len() == rule.load_before@.len(),
    ensures
        d@ == user_rule_result(user_base(opt_text(existing)), package_id@, rule@, sv(after_names@), sv(before_names@), secs as nat),
{
    let root = user_base_members(existing);
    user_rule_doc_from(root, package_id, rule, after_names, before_names, secs)
}

/// `user_rule_doc` on the members of the document it starts from (those of the existing
/// object, or `timestamp` 0 and empty `rules` when there is none).
pub fn user_rule_doc_from(
    root: Vec<(String, Json)>,
    package_id: &str,
    rule: &ExtRule,
    after_names: &Vec<String>,
    before_names: &Vec<String>,
    secs: u64,
) -> (d: Json)
    requires
        after_names@.len() == rule.load_after@.len(),
        before_names@.len() == rule.load_before@.len(),
    ensures
        d@ == user_rule_result(jmembers(root@), package_id@, rule@, sv(after_names@), sv(before_names@), secs as nat),
{
    proof {
        reveal_strlit("rules");
        reveal_strlit("timestamp");
        reveal_strlit("loadAfter");
        reveal_strlit("loadBefore");
        reveal_strlit("loadTop");
        reveal_strlit("loadBottom");
    }
    let rules = members_copy(Json::get_member(&root, "rules"));
    proof {
        crate::json::lemma_jmembers(rules@);
    }
    let key = match find_ci(&rules, package_id) {
        Some(p) => rules[p].0.clone(),
        None => String::from_str(package_id),
    };
    let e0 = members_copy(Json::get_member(&rules, key.as_str()));
    let e1 = set_list(e0, "loadAfter", &rule.load_after, after_names);
    let e2 = set_list(e1, "loadBefore", &rule.load_before, before_names);
    let e3 = set_flag(e2, "loadTop", rule.load_top);
    let e4 = set_flag(e3, "loadBottom", rule.load_bottom);
    let rules2 = if e4.len() == 0 {
        proof {
            crate::json::lemma_jmembers(e4@);
        }
        crate::json::without_member(rules, key.as_str())
    } else {
        proof {
            crate::json::lemma_jmembers(e4@);
        }
        crate::json::with_member(rules, key, Json::Object(e4))
    };
    let root2 = crate::json::with_member(root, String::from_str("rules"), Json::Object(rules2));
    let root3 = crate::json::with_member(root2, String::from_str("timestamp"), Json::Number(crate::error::decimal_u64(secs)));
    Json::Object(root3)
}

/// The document `user_rule_doc` makes, printed.
pub fn user_rule_text(
    existing: Option<&str>,
    package_id: &str,
    rule: &ExtRule,
    after_names: &Vec<String>,
    before_names: &Vec<String>,
    secs: u64,
) -> (r: Result<String, Error>)
    requires
        after_names@.len() == rule.load_after@.len(),
        before_names@.len() == rule.load_before@.len(),
    ensures
        r matches Ok(t) && t@ == json_pretty(user_rule_result(user_base(opt_text(existing)), package_id@, rule@, sv(after_names@), sv(before_names@), secs as nat)),
{
    let d = user_rule_doc(existing, package_id, rule, after_names, before_names, secs);
    match crate::json::to_pretty(&d) {
        Some(t) => Ok(t),
        None => Err(Error::Other(String::from_str("JSON: the document could not be written"))),
    }
}

/// Calls `SystemTime::now` and takes the whole seconds since the Unix epoch (0 for a clock set
/// before it). The time is the machine's, so nothing is claimed of it.
#[verifier::external_body]
fn unix_secs() -> u64 {
    std::time::SystemTime::now().duration_since(std::time::UNIX_EPOCH).map_or(0, |d| d.as_secs())
}

/// Rewrite one package's entry in a RimSort-format `userRules.json`, keeping comments/names of
/// entries that stay and unknown top-level keys; an empty rule removes the entry. The
/// timestamp becomes the current time.
pub fn write_user_rule(
    existing: Option<&str>,
    package_id: &str,
    rule: &ExtRule,
    after_names: &Vec<String>,
    before_names: &Vec<String>,
) -> (r: Result<String, Error>)
    requires
        after_names@.len() == rule.load_after@.len(),
        before_names@.len() == rule.load_before@.len(),
    ensures
        r matches Ok(t) && exists|secs: nat|
            #![trigger crate::error::decimal(secs)]
            t@ == json_pretty(user_rule_result(user_base(opt_text(existing)), package_id@, rule@, sv(after_names@), sv(before_names@), secs)),
{
    let secs = unix_secs();
    let r = user_rule_text(existing, package_id, rule, after_names, before_names, secs);
    proof {
        let _ = crate::error::decimal(secs as nat);
    }
    r
}

/// Everything external that influences sorting and validation.
#[derive(Debug, Clone)]
pub struct RuleSources {
    pub community: Option<ExternalRules>,
    pub user: Option<ExternalRules>,
    /// Package ids whose warnings are suppressed (`ignore.json` -> `ignored_mods`).
    pub ignored: Vec<String>,
    /// Package ids that should never get a version-mismatch warning.
    pub no_version_warning: Vec<String>,
    /// old Workshop id -> recommended replacement (the first entry for an id counts).
    pub replacements: Vec<(String, Replacement)>,
    /// Workshop id -> update times from Steam's manifest.
    pub workshop: crate::steamacf::WorkshopTimesMap,
}

impl RuleSources {
    /// No external rules at all.
    pub fn empty() -> (r: RuleSources)
        ensures
            r.community is None,
            r.user is None,
            r.ignored@.len() == 0,
            r.no_version_warning@.len() == 0,
            r.replacements@.len() == 0,
            r.workshop.entries@.len() == 0,
    {
        RuleSources {
            community: None,
            user: None,
            ignored: Vec::new(),
            no_version_warning: Vec::new(),
            replacements: Vec::new(),
            workshop: crate::steamacf::WorkshopTimesMap { entries: Vec::new() },
        }
    }
}

/// Where a rule database may be found.
#[derive(Debug, Clone, PartialEq, Eq)]
pub enum DbCandidate {
    /// A file the user configured, taken as is.
    Exact(String),
    /// A path relative to a database folder, taken from the first folder that has it.
    InDbs(String),
}

/// The contents of a `DbCandidate`.
pub enum DbCandidateView {
    Exact(Seq<char>),
    InDbs(Seq<char>),
}

/// The view of a candidate.
pub open spec fn cand_view(c: DbCandidate) -> DbCandidateView {
    match c {
        DbCandidate::Exact(p) => DbCandidateView::Exact(p@),
        DbCandidate::InDbs(p) => DbCandidateView::InDbs(p@),
    }
}

/// `s` without trailing slashes.
pub open spec fn strip_slashes(s: Seq<char>) -> Seq<char>
    decreases s.len(),
{
    if s.len() > 0 && s.last() == '/' {
        strip_slashes(s.drop_last())
    } else {
        s
    }
}

/// The name of a repository: the last piece of its address.
pub open spec fn repo_name_of(repo: Seq<char>) -> Seq<char> {
    let t = strip_slashes(repo);
    let k = crate::modlist_io::last_at(t, "/"@, t.len() as int);
    if k < 0 {
        t
    } else {
        t.skip(k + 1)
    }
}

/// The name of a repository (see `repo_name_of`).
pub fn repo_name(repo: &str) -> (r: String)
    ensures
        r@ == repo_name_of(repo@),
{
    let v = crate::text::chars_of(repo);
    let mut n: usize = v.len();
    assert(v@.take(n as int) == v@);
    while n > 0 && v[n - 1] == '/'
        invariant
            0 <= n <= v@.len(),
            strip_slashes(repo@) == strip_slashes(v@.take(n as int)),
            v@ == repo@,
        decreases n,
    {
        proof {
            assert(v@.take(n as int).drop_last() == v@.take(n - 1));
        }
        n -= 1;
    }
    let t = crate::text::sub_chars(v.as_slice(), 0, n);
    let slash = crate::text::chars_of("/");
    proof {
        reveal_strlit("/");
    }
    match crate::modlist_io::last_occurrence(t.as_slice(), slash.as_slice()) {
        Some(k) => {
            proof {
                assert(t@.subrange(k + 1, t@.len() as int) == t@.skip(k + 1));
            }
            crate::text::string_of_range(t.as_slice(), k + 1, t.len())
        },
        None => crate::text::string_of(t.as_slice()),
    }
}

/// Where to look for a database file, in order: nothing when its source is disabled; the
/// configured file; `<repo name>/<file>` for a repository source; and, when the source was
/// never configured, the default download layout `fallback`.
pub open spec fn db_candidates_of(
    configured: bool,
    source: Seq<char>,
    file_path: Seq<char>,
    repo: Seq<char>,
    file: Seq<char>,
    fallback: Seq<char>,
) -> Seq<DbCandidateView> {
    let first = if source == "None"@ || source == "Disabled"@ {
        Seq::empty()
    } else if source == "Configured file path"@ {
        if file_path.len() > 0 {
            seq![DbCandidateView::Exact(file_path)]
        } else {
            Seq::empty()
        }
    } else {
        let n = repo_name_of(repo);
        if n.len() > 0 {
            seq![DbCandidateView::InDbs(n + "/"@ + file)]
        } else {
            Seq::empty()
        }
    };
    if configured {
        first
    } else {
        first.push(DbCandidateView::InDbs(fallback))
    }
}

/// Where to look for a database file (see `db_candidates_of`); `source` is the setting's text
/// (empty when unset), `configured` whether the setting exists.
pub fn db_candidates(
    configured: bool,
    source: &str,
    file_path: &str,
    repo: &str,
    file: &str,
    fallback: &str,
) -> (r: Vec<DbCandidate>)
    ensures
        r@.map_values(|c: DbCandidate| cand_view(c)) == db_candidates_of(configured, source@, file_path@, repo@, file@, fallback@),
{
    let mut out: Vec<DbCandidate> = Vec::new();
    if crate::text::str_eq(source, "None") || crate::text::str_eq(source, "Disabled") {
    } else if crate::text::str_eq(source, "Configured file path") {
        if !file_path.is_empty() {
            out.push(DbCandidate::Exact(String::from_str(file_path)));
        }
    } else {
        let n = repo_name(repo);
        if !n.as_str().is_empty() {
            let mut p = n.clone();
            p.append("/");
            p.append(file);
            out.push(DbCandidate::InDbs(p));
        }
    }
    let ghost first = out@.map_values(|c: DbCandidate| cand_view(c));
    if !configured {
        out.push(DbCandidate::InDbs(String::from_str(fallback)));
    }
    assert(out@.map_values(|c: DbCandidate| cand_view(c)) =~= db_candidates_of(configured, source@, file_path@, repo@, file@, fallback@));
    out
}

/// The lowercased ids of `ignored_mods` in an `ignore.json` text; none when it is not JSON.
pub open spec fn ignored_of(text: Seq<char>) -> Seq<Seq<char>> {
    match json_doc(strip_bom(text)) {
        Some(v) => crate::about::lower_each(crate::modlist_io::json_strings(crate::modlist_io::items(field(v, "ignored_mods"@)))),
        None => Seq::empty(),
    }
}

/// The ids an `ignore.json` text lists (see `ignored_of`).
pub fn ignored_from_json(text: &str) -> (r: Vec<String>)
    ensures
        sv(r@) == ignored_of(text@),
{
    let t = crate::json::without_bom(text);
    proof {
        reveal_strlit("ignored_mods");
    }
    match crate::json::parse_json(t.as_str()) {
        Ok(v) => crate::about::lowered(crate::modlist_io::strings_of(v.get("ignored_mods"))),
        Err(_) => {
            let out: Vec<String> = Vec::new();
            assert(sv(out@) =~= Seq::<Seq<char>>::empty());
            out
        },
    }
}

/// The lowercased `li` entries of `ModIdsToFix` in a NoVersionWarning file.
pub open spec fn no_version_of(text: Seq<char>) -> Seq<Seq<char>> {
    crate::about::lower_each(crate::about::li_t(crate::about::child_t(crate::xml::parse_tree(text), "ModIdsToFix"@), false))
}

/// The folder of a game version's NoVersionWarning list: its first two dot-separated parts
/// (`1.6.4871 rev590` -> `1.6`), or the whole version when it has fewer.
pub open spec fn version_folder_of(v: Seq<char>) -> Seq<char> {
    let d1 = crate::xml::find_char(v, 0, '.');
    if d1 < 0 {
        v
    } else {
        let d2 = crate::xml::find_char(v, d1 + 1, '.');
        if d2 < 0 { v } else { v.take(d2) }
    }
}

/// The folder of a game version's NoVersionWarning list (see `version_folder_of`).
pub fn version_folder(game_version: &str) -> (r: String)
    ensures
        r@ == version_folder_of(game_version@),
{
    let v = crate::text::chars_of(game_version);
    let d1 = crate::text::find_char_from(v.as_slice(), 0, '.');
    proof {
        crate::xml::lemma_find_char_pub(v@, 0, '.', d1 as int);
    }
    if d1 == v.len() {
        return String::from_str(game_version);
    }
    let d2 = crate::text::find_char_from(v.as_slice(), d1 + 1, '.');
    proof {
        crate::xml::lemma_find_char_pub(v@, d1 + 1, '.', d2 as int);
    }
    if d2 == v.len() {
        return String::from_str(game_version);
    }
    let r = crate::text::string_of_range(v.as_slice(), 0, d2);
    proof {
        assert(v@.subrange(0, d2 as int) == v@.take(d2 as int));
    }
    r
}

/// The ids a NoVersionWarning `ModIdsToFix.xml` text lists (see `no_version_of`).
pub fn no_version_ids(text: &str) -> (r: Vec<String>)
    ensures
        sv(r@) == no_version_of(text@),
{
    let root = crate::xml::parse(text);
    proof {
        reveal_strlit("ModIdsToFix");
    }
    crate::about::lowered(crate::about::li_of(crate::about::child_of(&root, "ModIdsToFix"), false))
}

/// What one package's rule was set to is what reading it gives back: after `set`, `get` of
/// that package finds the rule (none when it was blank), and every other package's rule is as
/// before.
pub proof fn law_rule_reads_back(
    before: Map<Seq<char>, ExtRuleView>,
    after: Map<Seq<char>, ExtRuleView>,
    package_id: Seq<char>,
    rule: ExtRuleView,
)
    requires
        after == (if rule.is_blank() {
            before.remove(package_id)
        } else {
            before.insert(package_id, rule)
        }),
    ensures
        after.contains_key(package_id) == !rule.is_blank(),
        after.contains_key(package_id) ==> after[package_id] == rule,
        forall|k: Seq<char>| k != package_id ==> (#[trigger] after.contains_key(k) == before.contains_key(k) && (
        before.contains_key(k) ==> after[k] == before[k])),
{
}

} // verus!
