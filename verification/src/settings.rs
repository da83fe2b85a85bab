//! Settings and instances. The JSON layout mirrors RimSort's `settings.json` (instances
//! embedded, unknown keys kept) so a RimSort file can be read as is. Where the file lives is
//! the application's part.

use vstd::prelude::*;

use crate::error::Error;
use crate::json::{field, jmembers, json_doc, jv, Json, JsonV};
use crate::text::str_eq;

verus! {

broadcast use {vstd::string::group_string_axioms, vstd::seq_lib::group_seq_properties};

/// The instance a fresh installation gets.
pub const DEFAULT_INSTANCE: &'static str = "Default";

/// One game installation with its folders.
#[derive(Debug)]
pub struct Instance {
    pub name: String,
    pub game_folder: String,
    pub config_folder: String,
    pub local_folder: String,
    pub workshop_folder: String,
    pub run_args: String,
    /// Keys this version does not know, kept as they were.
    pub extra: Vec<(String, Json)>,
}

/// All settings.
#[derive(Debug)]
pub struct Settings {
    pub sorting_algorithm: String,
    pub use_moddependencies_as_load_these_before: bool,
    pub use_alternative_package_ids_as_satisfying_dependencies: bool,
    pub check_dependencies_on_sort: bool,
    pub prefer_versioned_about_tags: bool,
    pub current_instance: String,
    /// By name, sorted.
    pub instances: Vec<(String, Instance)>,
    /// Keys this version does not know, kept as they were.
    pub extra: Vec<(String, Json)>,
}

/// The contents of an `Instance`.
pub struct InstanceView {
    pub name: Seq<char>,
    pub game_folder: Seq<char>,
    pub config_folder: Seq<char>,
    pub local_folder: Seq<char>,
    pub workshop_folder: Seq<char>,
    pub run_args: Seq<char>,
    pub extra: Seq<(Seq<char>, JsonV)>,
}

/// The contents of an `Instance`.
pub open spec fn iview(i: Instance) -> InstanceView {
    InstanceView {
        name: i.name@,
        game_folder: i.game_folder@,
        config_folder: i.config_folder@,
        local_folder: i.local_folder@,
        workshop_folder: i.workshop_folder@,
        run_args: i.run_args@,
        extra: jmembers(i.extra@),
    }
}

/// The instances, by name.
pub open spec fn iviews(s: Seq<(String, Instance)>) -> Seq<(Seq<char>, InstanceView)> {
    s.map_values(|p: (String, Instance)| (p.0@, iview(p.1)))
}

/// A text member: the default when absent, `None` (an error) when not a string.
pub open spec fn text_or(v: JsonV, k: Seq<char>, d: Seq<char>) -> Option<Seq<char>> {
    match field(v, k) {
        None => Some(d),
        Some(JsonV::Str(t)) => Some(t),
        _ => None,
    }
}

/// A boolean member: the default when absent, `None` (an error) when not a boolean.
pub open spec fn flag_or(v: JsonV, k: Seq<char>, d: bool) -> Option<bool> {
    match field(v, k) {
        None => Some(d),
        Some(JsonV::Bool(b)) => Some(b),
        _ => None,
    }
}

/// The members whose names are not among `known`.
pub open spec fn unknown_members(e: Seq<(Seq<char>, JsonV)>, known: Seq<Seq<char>>) -> Seq<(Seq<char>, JsonV)>
    decreases e.len(),
{
    if e.len() == 0 {
        Seq::empty()
    } else {
        let r = unknown_members(e.drop_last(), known);
        if known.contains(e.last().0) {
            r
        } else {
            r.push(e.last())
        }
    }
}

/// The keys an instance has.
pub open spec fn instance_keys() -> Seq<Seq<char>> {
    seq!["name"@, "game_folder"@, "config_folder"@, "local_folder"@, "workshop_folder"@, "run_args"@]
}

/// The keys settings have.
pub open spec fn settings_keys() -> Seq<Seq<char>> {
    seq![
        "sorting_algorithm"@,
        "use_moddependencies_as_loadTheseBefore"@,
        "use_alternative_package_ids_as_satisfying_dependencies"@,
        "check_dependencies_on_sort"@,
        "prefer_versioned_about_tags"@,
        "current_instance"@,
        "instances"@,
    ]
}

/// The instance an object describes: each known member a string (empty when absent), the
/// rest kept; `None` for anything else.
pub open spec fn instance_of(v: JsonV) -> Option<InstanceView> {
    match v {
        JsonV::Object(e) => {
            let n = text_or(v, "name"@, Seq::empty());
            let g = text_or(v, "game_folder"@, Seq::empty());
            let c = text_or(v, "config_folder"@, Seq::empty());
            let l = text_or(v, "local_folder"@, Seq::empty());
            let w = text_or(v, "workshop_folder"@, Seq::empty());
            let a = text_or(v, "run_args"@, Seq::empty());
            if n is Some && g is Some && c is Some && l is Some && w is Some && a is Some {
                Some(InstanceView {
                    name: n->0,
                    game_folder: g->0,
                    config_folder: c->0,
                    local_folder: l->0,
                    workshop_folder: w->0,
                    run_args: a->0,
                    extra: unknown_members(e, instance_keys()),
                })
            } else {
                None
            }
        },
        _ => None,
    }
}

/// The instances of an `instances` object, in order; `None` if one is not an instance.
pub open spec fn instances_of(e: Seq<(Seq<char>, JsonV)>) -> Option<Seq<(Seq<char>, InstanceView)>>
    decreases e.len(),
{
    if e.len() == 0 {
        Some(Seq::empty())
    } else {
        match (instances_of(e.drop_last()), instance_of(e.last().1)) {
            (Some(r), Some(i)) => Some(r.push((e.last().0, i))),
            _ => None,
        }
    }
}

/// The contents of `Settings`.
pub struct SettingsView {
    pub sorting_algorithm: Seq<char>,
    pub use_moddependencies_as_load_these_before: bool,
    pub use_alternative_package_ids_as_satisfying_dependencies: bool,
    pub check_dependencies_on_sort: bool,
    pub prefer_versioned_about_tags: bool,
    pub current_instance: Seq<char>,
    pub instances: Seq<(Seq<char>, InstanceView)>,
    pub extra: Seq<(Seq<char>, JsonV)>,
}

/// The contents of `Settings`.
pub open spec fn sview(s: Settings) -> SettingsView {
    SettingsView {
        sorting_algorithm: s.sorting_algorithm@,
        use_moddependencies_as_load_these_before: s.use_moddependencies_as_load_these_before,
        use_alternative_package_ids_as_satisfying_dependencies: s.use_alternative_package_ids_as_satisfying_dependencies,
        check_dependencies_on_sort: s.check_dependencies_on_sort,
        prefer_versioned_about_tags: s.prefer_versioned_about_tags,
        current_instance: s.current_instance@,
        instances: iviews(s.instances@),
        extra: jmembers(s.extra@),
    }
}

/// The settings an object describes: each known member of its type (its default when absent),
/// the rest kept; `None` for anything else.
pub open spec fn settings_of(v: JsonV) -> Option<SettingsView> {
    match v {
        JsonV::Object(e) => {
            let sa = text_or(v, "sorting_algorithm"@, "Topological"@);
            let dl = flag_or(v, "use_moddependencies_as_loadTheseBefore"@, false);
            let al = flag_or(v, "use_alternative_package_ids_as_satisfying_dependencies"@, true);
            let cd = flag_or(v, "check_dependencies_on_sort"@, true);
            let pv = flag_or(v, "prefer_versioned_about_tags"@, true);
            let ci = text_or(v, "current_instance"@, "Default"@);
            let inst = match field(v, "instances"@) {
                None => Some(Seq::empty()),
                Some(JsonV::Object(m)) => instances_of(m),
                _ => None,
            };
            if sa is Some && dl is Some && al is Some && cd is Some && pv is Some && ci is Some && inst is Some {
                Some(SettingsView {
                    sorting_algorithm: sa->0,
                    use_moddependencies_as_load_these_before: dl->0,
                    use_alternative_package_ids_as_satisfying_dependencies: al->0,
                    check_dependencies_on_sort: cd->0,
                    prefer_versioned_about_tags: pv->0,
                    current_instance: ci->0,
                    instances: inst->0,
                    extra: unknown_members(e, settings_keys()),
                })
            } else {
                None
            }
        },
        _ => None,
    }
}

/// A text member with its default (see `text_or`).
fn text_member(v: &Json, k: &str, d: &str) -> (r: Option<String>)
    ensures
        match r {
            Some(t) => text_or(v@, k@, d@) == Some(t@),
            None => text_or(v@, k@, d@) is None,
        },
{
    match v.get(k) {
        None => Some(String::from_str(d)),
        Some(Json::Str(t)) => Some(t.clone()),
        Some(_) => None,
    }
}

/// A boolean member with its default (see `flag_or`).
fn flag_member(v: &Json, k: &str, d: bool) -> (r: Option<bool>)
    ensures
        r == flag_or(v@, k@, d),
{
    match v.get(k) {
        None => Some(d),
        Some(Json::Bool(b)) => Some(*b),
        Some(_) => None,
    }
}

/// Copies of the members whose names are not among `known`.
fn unknown_of(e: &Vec<(String, Json)>, known: &Vec<String>) -> (r: Vec<(String, Json)>)
    ensures
        jmembers(r@) == unknown_members(jmembers(e@), crate::text::sv(known@)),
{
    let ghost m = jmembers(e@);
    proof {
        crate::json::lemma_jmembers(e@);
    }
    let mut out: Vec<(String, Json)> = Vec::new();
    let mut i: usize = 0;
    while i < e.len()
        invariant
            0 <= i <= e@.len(),
            m == jmembers(e@),
            m.len() == e@.len(),
            forall|x: int| 0 <= x < e@.len() ==> #[trigger] m[x] == (e@[x].0@, jv(e@[x].1)),
            jmembers(out@) == unknown_members(m.take(i as int), crate::text::sv(known@)),
        decreases e@.len() - i,
    {
        proof {
            assert(m.take(i + 1).drop_last() == m.take(i as int));
            assert(m.take(i + 1).last() == m[i as int]);
        }
        if !crate::text::contains_str(known, &e[i].0) {
            let ghost o = out@;
            out.push((e[i].0.clone(), e[i].1.copy()));
            proof {
                assert(out@.drop_last() == o);
            }
        }
        i += 1;
    }
    assert(m.take(m.len() as int) == m);
    out
}

/// The keys an instance has.
fn instance_key_list() -> (r: Vec<String>)
    ensures
        crate::text::sv(r@) == instance_keys(),
{
    let mut v: Vec<String> = Vec::new();
    v.push(String::from_str("name"));
    v.push(String::from_str("game_folder"));
    v.push(String::from_str("config_folder"));
    v.push(String::from_str("local_folder"));
    v.push(String::from_str("workshop_folder"));
    v.push(String::from_str("run_args"));
    assert(crate::text::sv(v@) =~= instance_keys());
    v
}

/// The keys settings have.
fn settings_key_list() -> (r: Vec<String>)
    ensures
        crate::text::sv(r@) == settings_keys(),
{
    let mut v: Vec<String> = Vec::new();
    v.push(String::from_str("sorting_algorithm"));
    v.push(String::from_str("use_moddependencies_as_loadTheseBefore"));
    v.push(String::from_str("use_alternative_package_ids_as_satisfying_dependencies"));
    v.push(String::from_str("check_dependencies_on_sort"));
    v.push(String::from_str("prefer_versioned_about_tags"));
    v.push(String::from_str("current_instance"));
    v.push(String::from_str("instances"));
    assert(crate::text::sv(v@) =~= settings_keys());
    v
}

/// The instance an object describes (see `instance_of`).
fn instance_from(v: &Json) -> (r: Option<Instance>)
    ensures
        match r {
            Some(i) => instance_of(v@) == Some(iview(i)),
            None => instance_of(v@) is None,
        },
{
    match v {
        Json::Object(e) => {
            let n = text_member(v, "name", "");
            let g = text_member(v, "game_folder", "");
            let c = text_member(v, "config_folder", "");
            let l = text_member(v, "local_folder", "");
            let w = text_member(v, "workshop_folder", "");
            let a = text_member(v, "run_args", "");
            proof {
                reveal_strlit("");
                assert(""@ =~= Seq::<char>::empty());
            }
            match (n, g, c, l, w, a) {
                (Some(n), Some(g), Some(c), Some(l), Some(w), Some(a)) => {
                    let keys = instance_key_list();
                    let extra = unknown_of(e, &keys);
                    Some(Instance { name: n, game_folder: g, config_folder: c, local_folder: l, workshop_folder: w, run_args: a, extra })
                },
                _ => None,
            }
        },
        _ => None,
    }
}

/// The instances of an `instances` object (see `instances_of`).
fn instances_from(m: &Vec<(String, Json)>) -> (r: Option<Vec<(String, Instance)>>)
    ensures
        match r {
            Some(v) => instances_of(jmembers(m@)) == Some(iviews(v@)),
            None => instances_of(jmembers(m@)) is None,
        },
{
    let ghost mm = jmembers(m@);
    proof {
        crate::json::lemma_jmembers(m@);
    }
    let mut out: Vec<(String, Instance)> = Vec::new();
    let mut i: usize = 0;
    while i < m.len()
        invariant
            0 <= i <= m@.len(),
            mm == jmembers(m@),
            mm.len() == m@.len(),
            forall|x: int| 0 <= x < m@.len() ==> #[trigger] mm[x] == (m@[x].0@, jv(m@[x].1)),
            instances_of(mm.take(i as int)) == Some(iviews(out@)),
        decreases m@.len() - i,
    {
        proof {
            assert(mm.take(i + 1).drop_last() == mm.take(i as int));
            assert(mm.take(i + 1).last() == mm[i as int]);
        }
        match instance_from(&m[i].1) {
            Some(inst) => {
                let ghost o = out@;
                out.push((m[i].0.clone(), inst));
                proof {
                    assert(iviews(out@) =~= iviews(o).push((m@[i as int].0@, iview(out@[o.len() as int].1))));
                }
            },
            None => {
                proof {
                    assert(instances_of(mm.take(i + 1)) is None);
                    let k = i + 1;
                    lemma_instances_none(mm, k as int);
                }
                return None;
            },
        }
        i += 1;
    }
    assert(mm.take(mm.len() as int) == mm);
    Some(out)
}

proof fn lemma_instances_none(e: Seq<(Seq<char>, JsonV)>, k: int)
    requires
        0 <= k <= e.len(),
        instances_of(e.take(k)) is None,
    ensures
        instances_of(e) is None,
    decreases e.len() - k,
{
    if k < e.len() {
        assert(e.take(k + 1).drop_last() == e.take(k));
        lemma_instances_none(e, k + 1);
    } else {
        assert(e.take(k) == e);
    }
}

impl Settings {
    /// The settings an object describes (see `settings_of`); `None` when it is no object or a
    /// known member has the wrong type.
    pub fn from_json(v: &Json) -> (r: Option<Settings>)
        ensures
            match r {
                Some(x) => settings_of(v@) == Some(sview(x)),
                None => settings_of(v@) is None,
            },
    {
        match v {
            Json::Object(e) => {
                let sa = text_member(v, "sorting_algorithm", "Topological");
                let dl = flag_member(v, "use_moddependencies_as_loadTheseBefore", false);
                let al = flag_member(v, "use_alternative_package_ids_as_satisfying_dependencies", true);
                let cd = flag_member(v, "check_dependencies_on_sort", true);
                let pv = flag_member(v, "prefer_versioned_about_tags", true);
                let ci = text_member(v, "current_instance", "Default");
                let inst: Option<Vec<(String, Instance)>> = match v.get("instances") {
                    None => Some(Vec::new()),
                    Some(Json::Object(m)) => instances_from(m),
                    Some(_) => None,
                };
                proof {
                    reveal_strlit("instances");
                    if field(v@, "instances"@) is None {
                        assert(iviews(inst->0@) =~= Seq::<(Seq<char>, InstanceView)>::empty());
                    }
                }
                match (sa, dl, al, cd, pv, ci, inst) {
                    (Some(sa), Some(dl), Some(al), Some(cd), Some(pv), Some(ci), Some(inst)) => {
                        let keys = settings_key_list();
                        let extra = unknown_of(e, &keys);
                        let r = Settings {
                            sorting_algorithm: sa,
                            use_moddependencies_as_load_these_before: dl,
                            use_alternative_package_ids_as_satisfying_dependencies: al,
                            check_dependencies_on_sort: cd,
                            prefer_versioned_about_tags: pv,
                            current_instance: ci,
                            instances: inst,
                            extra,
                        };
                        assert(iviews(r.instances@) == settings_of(v@)->0.instances);
                        Some(r)
                    },
                    _ => None,
                }
            },
            _ => None,
        }
    }
}

/// An instance with only a name.
pub open spec fn named_instance(name: Seq<char>) -> InstanceView {
    InstanceView {
        name,
        game_folder: Seq::empty(),
        config_folder: Seq::empty(),
        local_folder: Seq::empty(),
        workshop_folder: Seq::empty(),
        run_args: Seq::empty(),
        extra: Seq::empty(),
    }
}

/// Instances without a name take their key.
pub open spec fn names_filled(s: Seq<(Seq<char>, InstanceView)>) -> Seq<(Seq<char>, InstanceView)> {
    s.map_values(|p: (Seq<char>, InstanceView)| if p.1.name.len() == 0 {
        (p.0, InstanceView { name: p.0, ..p.1 })
    } else {
        p
    })
}

/// The least key (by character order), or empty for no instances.
pub open spec fn least_key(s: Seq<(Seq<char>, InstanceView)>) -> Seq<char>
    decreases s.len(),
{
    if s.len() == 0 {
        Seq::empty()
    } else if s.len() == 1 {
        s[0].0
    } else {
        let r = least_key(s.drop_last());
        if crate::text::lex_lt(s.last().0, r) {
            s.last().0
        } else {
            r
        }
    }
}

/// The instances without those named `k`, in order.
pub open spec fn without_key(s: Seq<(Seq<char>, InstanceView)>, k: Seq<char>) -> Seq<(Seq<char>, InstanceView)>
    decreases s.len(),
{
    if s.len() == 0 {
        Seq::empty()
    } else {
        let r = without_key(s.drop_last(), k);
        if s.last().0 == k { r } else { r.push(s.last()) }
    }
}

/// An instance named `name` sorts before one keyed `p.0`.
pub open spec fn name_after(name: Seq<char>) -> spec_fn((Seq<char>, InstanceView)) -> bool {
    |p: (Seq<char>, InstanceView)| crate::text::lex_lt(name, p.0)
}

/// Where an instance named `name` goes among instances sorted by name: before the first one
/// whose name comes after it.
pub open spec fn insert_pos(s: Seq<(Seq<char>, InstanceView)>, name: Seq<char>) -> int {
    let k = crate::detect::first_where(s, name_after(name));
    if k >= 0 { k } else { s.len() as int }
}

/// The text of an optional folder, empty when there is none.
pub open spec fn or_empty(o: Option<Seq<char>>) -> Seq<char> {
    match o {
        Some(t) => t,
        None => Seq::empty(),
    }
}

/// A new instance with the folders auto-detection found.
pub open spec fn detected_instance(name: Seq<char>, d: crate::detect::DetectedView) -> InstanceView {
    InstanceView {
        name,
        game_folder: or_empty(d.game),
        config_folder: or_empty(d.config),
        local_folder: or_empty(d.local),
        workshop_folder: or_empty(d.workshop),
        run_args: Seq::empty(),
        extra: Seq::empty(),
    }
}

/// The text of an optional folder, empty when there is none.
fn opt_or_empty(o: &Option<String>) -> (r: String)
    ensures
        r@ == or_empty(crate::state::opt_view(*o)),
{
    match o {
        Some(t) => t.clone(),
        None => String::new(),
    }
}

/// An instance keyed `name`.
pub open spec fn key_is(name: Seq<char>) -> spec_fn((Seq<char>, InstanceView)) -> bool {
    |p: (Seq<char>, InstanceView)| p.0 == name
}

/// An instance as the user saved it: the given name, folders and arguments, and the launch
/// choice stored among its other keys.
pub open spec fn saved_instance(dto: crate::dto::InstanceDto, extra: Seq<(Seq<char>, JsonV)>) -> InstanceView {
    InstanceView {
        name: dto.name@,
        game_folder: dto.game_folder@,
        config_folder: dto.config_folder@,
        local_folder: dto.local_folder@,
        workshop_folder: dto.workshop_folder@,
        run_args: dto.run_args@,
        extra: crate::json::put(extra, "launch_via_steam_protocol"@, JsonV::Bool(dto.launch_via_steam)),
    }
}

/// The instances after saving `dto`: the instance keyed by its name is replaced (keeping its
/// other keys), or a new one is placed by name.
pub open spec fn with_saved(s: Seq<(Seq<char>, InstanceView)>, dto: crate::dto::InstanceDto) -> Seq<(Seq<char>, InstanceView)> {
    let n = dto.name@;
    let k = crate::detect::first_where(s, key_is(n));
    if k >= 0 {
        s.update(k, (n, saved_instance(dto, s[k].1.extra)))
    } else {
        s.insert(insert_pos(s, n), (n, saved_instance(dto, Seq::empty())))
    }
}

/// Some instance is named `k`.
pub open spec fn has_key(s: Seq<(Seq<char>, InstanceView)>, k: Seq<char>) -> bool {
    exists|j: int| 0 <= j < s.len() && #[trigger] s[j].0 == k
}

/// Settings with at least one instance and a `current_instance` that names one: nameless
/// instances take their key, no instances become one named `Default`, and an unknown current
/// instance becomes the first by name.
pub open spec fn normalized(v: SettingsView) -> SettingsView {
    let i1 = names_filled(v.instances);
    let i2 = if i1.len() == 0 {
        seq![("Default"@, named_instance("Default"@))]
    } else {
        i1
    };
    let cur = if has_key(i2, v.current_instance) {
        v.current_instance
    } else {
        least_key(i2)
    };
    SettingsView { instances: i2, current_instance: cur, ..v }
}

impl Instance {
    /// An instance with only a name.
    pub fn named(name: &str) -> (r: Instance)
        ensures
            iview(r) == named_instance(name@),
    {
        let r = Instance {
            name: String::from_str(name),
            game_folder: String::new(),
            config_folder: String::new(),
            local_folder: String::new(),
            workshop_folder: String::new(),
            run_args: String::new(),
            extra: Vec::new(),
        };
        assert(jmembers(r.extra@) =~= Seq::<(Seq<char>, JsonV)>::empty());
        r
    }
}

/// Instances without a name take their key.
fn fill_names(v: Vec<(String, Instance)>) -> (r: Vec<(String, Instance)>)
    ensures
        iviews(r@) == names_filled(iviews(v@)),
{
    let ghost src = v@;
    let ghost filled = names_filled(iviews(src));
    let mut rest = v;
    let mut out: Vec<(String, Instance)> = Vec::new();
    let ghost mut i: int = 0;
    assert(src.subrange(0, src.len() as int) == src);
    while rest.len() > 0
        invariant
            0 <= i <= src.len(),
            src.len() == i + rest@.len(),
            rest@ == src.subrange(i, src.len() as int),
            filled == names_filled(iviews(src)),
            iviews(out@) == filled.take(i),
        decreases rest@.len(),
    {
        let (k, mut inst) = rest.remove(0);
        proof {
            assert((k, inst) == src[i]);
            assert(iviews(src)[i] == (k@, iview(inst)));
            assert(rest@ == src.subrange(i + 1, src.len() as int));
        }
        if inst.name.as_str().is_empty() {
            inst.name = k.clone();
        }
        let ghost x = (k@, iview(inst));
        assert(filled[i] == x);
        let ghost o = out@;
        out.push((k, inst));
        proof {
            assert(out@ == o.push(out@[o.len() as int]));
            assert(iviews(out@) =~= iviews(o).push(x));
            assert(filled.take(i + 1) =~= filled.take(i).push(filled[i]));
            i = i + 1;
        }
    }
    proof {
        assert(filled.take(i) =~= filled);
    }
    out
}

impl Settings {
    /// The defaults: topological sorting, alternatives satisfy dependencies, dependency check
    /// and versioned About tags on, current instance `Default`, no instances.
    pub fn defaults() -> (r: Settings)
        ensures
            sview(r) == settings_of(JsonV::Object(Seq::empty()))->0,
            settings_of(JsonV::Object(Seq::empty())) is Some,
    {
        let r = Settings {
            sorting_algorithm: String::from_str("Topological"),
            use_moddependencies_as_load_these_before: false,
            use_alternative_package_ids_as_satisfying_dependencies: true,
            check_dependencies_on_sort: true,
            prefer_versioned_about_tags: true,
            current_instance: String::from_str("Default"),
            instances: Vec::new(),
            extra: Vec::new(),
        };
        proof {
            assert(iviews(r.instances@) =~= Seq::<(Seq<char>, InstanceView)>::empty());
            assert(jmembers(r.extra@) =~= Seq::<(Seq<char>, JsonV)>::empty());
            assert(unknown_members(Seq::<(Seq<char>, JsonV)>::empty(), settings_keys()) =~= Seq::<(Seq<char>, JsonV)>::empty());
        }
        r
    }

    /// Position of the instance named `name`.
    fn instance_pos(&self, name: &str) -> (r: Option<usize>)
        ensures
            match r {
                Some(k) => k < self.instances@.len() && self.instances@[k as int].0@ == name@,
                None => forall|k: int| 0 <= k < self.instances@.len() ==> #[trigger] self.instances@[k].0@ != name@,
            },
    {
        let mut k: usize = 0;
        while k < self.instances.len()
            invariant
                0 <= k <= self.instances@.len(),
                forall|j: int| 0 <= j < k ==> #[trigger] self.instances@[j].0@ != name@,
            decreases self.instances@.len() - k,
        {
            if str_eq(self.instances[k].0.as_str(), name) {
                return Some(k);
            }
            k += 1;
        }
        None
    }

    /// The current instance.
    pub fn current(&self) -> (r: Option<&Instance>)
        ensures
            match r {
                Some(i) => exists|k: int| 0 <= k < self.instances@.len() && #[trigger] self.instances@[k].0@ == self.current_instance@
                    && self.instances@[k].1 == *i && forall|j: int| 0 <= j < k ==> #[trigger] self.instances@[j].0@ != self.current_instance@,
                None => forall|k: int| 0 <= k < self.instances@.len() ==> #[trigger] self.instances@[k].0@ != self.current_instance@,
            },
    {
        let mut k: usize = 0;
        while k < self.instances.len()
            invariant
                0 <= k <= self.instances@.len(),
                forall|j: int| 0 <= j < k ==> #[trigger] self.instances@[j].0@ != self.current_instance@,
            decreases self.instances@.len() - k,
        {
            if str_eq(self.instances[k].0.as_str(), self.current_instance.as_str()) {
                return Some(&self.instances[k].1);
            }
            k += 1;
        }
        None
    }

    /// Make `name` the current instance; an unknown name is refused.
    pub fn switch_instance(&mut self, name: &str) -> (r: Result<(), Error>)
        ensures
            r is Ok <==> has_key(iviews(old(self).instances@), name@),
            r is Ok ==> sview(*final(self)) == (SettingsView { current_instance: name@, ..sview(*old(self)) }),
            r is Err ==> sview(*final(self)) == sview(*old(self)),
            r matches Err(e) ==> e matches Error::Other(m) && m@ == "No such instance: "@ + name@,
    {
        match self.instance_pos(name) {
            Some(k) => {
                assert(iviews(self.instances@)[k as int].0 == name@);
                self.current_instance = String::from_str(name);
                return Ok(());
            },
            None => {},
        }
        proof {
            if has_key(iviews(self.instances@), name@) {
                let j = choose|j: int| 0 <= j < iviews(self.instances@).len() && #[trigger] iviews(self.instances@)[j].0 == name@;
                assert(self.instances@[j].0@ == name@);
            }
        }
        let mut m = String::from_str("No such instance: ");
        m.append(name);
        Err(Error::Other(m))
    }

    /// A new instance named `name` (trimmed) with the detected folders, placed among the
    /// instances by name; an empty or taken name is refused.
    pub fn create_instance(&mut self, name: &str, detected: &crate::paths::DetectedPaths) -> (r: Result<(), Error>)
        ensures
            r is Err <==> (crate::text::trim(name@).len() == 0 || has_key(iviews(old(self).instances@), crate::text::trim(name@))),
            r matches Err(e) ==> e matches Error::Other(m) && m@ == "Instance name '"@ + crate::text::trim(name@) + "' is empty or already exists"@,
            r is Err ==> sview(*final(self)) == sview(*old(self)),
            r is Ok ==> sview(*final(self)) == (SettingsView {
                instances: iviews(old(self).instances@).insert(
                    insert_pos(iviews(old(self).instances@), crate::text::trim(name@)),
                    (crate::text::trim(name@), detected_instance(crate::text::trim(name@), detected@)),
                ),
                ..sview(*old(self))
            }),
    {
        let t = crate::text::trim_str(name);
        let taken = self.instance_pos(t.as_str()).is_some();
        proof {
            if has_key(iviews(self.instances@), t@) {
                let j = choose|j: int| 0 <= j < iviews(self.instances@).len() && #[trigger] iviews(self.instances@)[j].0 == t@;
                assert(self.instances@[j].0@ == t@);
            }
            if taken {
                let k = choose|k: int| 0 <= k < self.instances@.len() && self.instances@[k].0@ == t@;
                assert(iviews(self.instances@)[k].0 == t@);
            }
        }
        if crate::text::chars_of(t.as_str()).len() == 0 || taken {
            let mut m = String::from_str("Instance name '");
            m.append(t.as_str());
            m.append("' is empty or already exists");
            return Err(Error::Other(m));
        }
        let tc = crate::text::chars_of(t.as_str());
        let ghost iv = iviews(self.instances@);
        let mut p: usize = 0;
        let mut stop = false;
        while !stop && p < self.instances.len()
            invariant
                0 <= p <= self.instances@.len(),
                iv == iviews(self.instances@),
                tc@ == t@,
                stop ==> p < iv.len() && name_after(t@)(iv[p as int]),
                forall|k: int| 0 <= k < p ==> !#[trigger] name_after(t@)(iv[k]),
            decreases self.instances@.len() - p, (if stop { 0int } else { 1int }),
        {
            let kc = crate::text::chars_of(self.instances[p].0.as_str());
            assert(iv[p as int].0 == self.instances@[p as int].0@);
            if crate::text::chars_lt(tc.as_slice(), kc.as_slice()) {
                stop = true;
            } else {
                p += 1;
            }
        }
        proof {
            if p < iv.len() {
                assert(name_after(t@)(iv[p as int]));
            }
            crate::detect::lemma_first_where(iv, name_after(t@));
            let r = crate::detect::first_where(iv, name_after(t@));
            if r >= 0 && r < p {
                assert(!name_after(t@)(iv[r]));
            }
            if p < iv.len() && (r < 0 || p < r) {
                assert(!name_after(t@)(iv[p as int]));
            }
        }
        let inst = Instance {
            name: t.clone(),
            game_folder: opt_or_empty(&detected.game_folder),
            config_folder: opt_or_empty(&detected.config_folder),
            local_folder: opt_or_empty(&detected.local_folder),
            workshop_folder: opt_or_empty(&detected.workshop_folder),
            run_args: String::new(),
            extra: Vec::new(),
        };
        assert(jmembers(inst.extra@) =~= Seq::<(Seq<char>, JsonV)>::empty());
        self.instances.insert(p, (t, inst));
        proof {
            assert(iviews(self.instances@) =~= iv.insert(p as int, (t@, detected_instance(t@, detected@))));
        }
        Ok(())
    }

    /// Save an instance's folders, arguments and launch choice under its name; a blank name
    /// is refused.
    pub fn save_instance(&mut self, dto: &crate::dto::InstanceDto) -> (r: Result<(), Error>)
        ensures
            r is Err <==> crate::text::trim(dto.name@).len() == 0,
            r matches Err(e) ==> e matches Error::Other(m) && m@ == "Instance name cannot be empty"@,
            r is Err ==> sview(*final(self)) == sview(*old(self)),
            r is Ok ==> sview(*final(self)) == (SettingsView { instances: with_saved(iviews(old(self).instances@), *dto), ..sview(*old(self)) }),
    {
        let t = crate::text::trim_str(dto.name.as_str());
        if crate::text::chars_of(t.as_str()).len() == 0 {
            return Err(Error::Other(String::from_str("Instance name cannot be empty")));
        }
        let ghost iv = iviews(self.instances@);
        let ghost n = dto.name@;
        let nc = crate::text::chars_of(dto.name.as_str());
        let mut k: usize = 0;
        let mut found = false;
        while !found && k < self.instances.len()
            invariant
                0 <= k <= self.instances@.len(),
                iv == iviews(self.instances@),
                nc@ == n,
                n == dto.name@,
                found ==> k < iv.len() && key_is(n)(iv[k as int]),
                forall|x: int| 0 <= x < k ==> !#[trigger] key_is(n)(iv[x]),
            decreases self.instances@.len() - k, (if found { 0int } else { 1int }),
        {
            assert(iv[k as int].0 == self.instances@[k as int].0@);
            if str_eq(self.instances[k].0.as_str(), dto.name.as_str()) {
                found = true;
            } else {
                k += 1;
            }
        }
        proof {
            crate::detect::lemma_first_where(iv, key_is(n));
            let r = crate::detect::first_where(iv, key_is(n));
            if r >= 0 && r < k {
                assert(!key_is(n)(iv[r]));
            }
            if k < iv.len() && (r < 0 || k < r) {
                assert(!key_is(n)(iv[k as int]));
            }
        }
        let launch = Json::Bool(dto.launch_via_steam);
        if found {
            let (key, old_inst) = self.instances.remove(k);
            let extra = crate::json::with_member(old_inst.extra, String::from_str("launch_via_steam_protocol"), launch);
            let inst = Instance {
                name: dto.name.clone(),
                game_folder: dto.game_folder.clone(),
                config_folder: dto.config_folder.clone(),
                local_folder: dto.local_folder.clone(),
                workshop_folder: dto.workshop_folder.clone(),
                run_args: dto.run_args.clone(),
                extra,
            };
            proof {
                reveal_strlit("launch_via_steam_protocol");
            }
            self.instances.insert(k, (key, inst));
            proof {
                assert(iviews(self.instances@) =~= iv.update(k as int, (n, saved_instance(*dto, iv[k as int].1.extra))));
            }
        } else {
            let mut p: usize = 0;
            let mut stop = false;
            while !stop && p < self.instances.len()
                invariant
                    0 <= p <= self.instances@.len(),
                    iv == iviews(self.instances@),
                    nc@ == n,
                    stop ==> p < iv.len() && name_after(n)(iv[p as int]),
                    forall|x: int| 0 <= x < p ==> !#[trigger] name_after(n)(iv[x]),
                decreases self.instances@.len() - p, (if stop { 0int } else { 1int }),
            {
                let kc = crate::text::chars_of(self.instances[p].0.as_str());
                assert(iv[p as int].0 == self.instances@[p as int].0@);
                if crate::text::chars_lt(nc.as_slice(), kc.as_slice()) {
                    stop = true;
                } else {
                    p += 1;
                }
            }
            proof {
                crate::detect::lemma_first_where(iv, name_after(n));
                let r = crate::detect::first_where(iv, name_after(n));
                if r >= 0 && r < p {
                    assert(!name_after(n)(iv[r]));
                }
                if p < iv.len() && (r < 0 || p < r) {
                    assert(!name_after(n)(iv[p as int]));
                }
            }
            let extra = crate::json::with_member(Vec::new(), String::from_str("launch_via_steam_protocol"), launch);
            proof {
                assert(jmembers(Seq::<(String, Json)>::empty()) =~= Seq::<(Seq<char>, JsonV)>::empty());
                reveal_strlit("launch_via_steam_protocol");
            }
            let inst = Instance {
                name: dto.name.clone(),
                game_folder: dto.game_folder.clone(),
                config_folder: dto.config_folder.clone(),
                local_folder: dto.local_folder.clone(),
                workshop_folder: dto.workshop_folder.clone(),
                run_args: dto.run_args.clone(),
                extra,
            };
            self.instances.insert(p, (dto.name.clone(), inst));
            proof {
                assert(iviews(self.instances@) =~= iv.insert(p as int, (n, saved_instance(*dto, Seq::empty()))));
            }
        }
        Ok(())
    }

    /// Remove the instance `name` (every entry with that key); the last instance is kept.
    /// Tells whether it was the current one.
    pub fn delete_instance(&mut self, name: &str) -> (r: Result<bool, Error>)
        ensures
            r is Err <==> old(self).instances@.len() <= 1,
            r matches Err(e) ==> e matches Error::Other(m) && m@ == "Cannot delete the last instance"@,
            r is Err ==> sview(*final(self)) == sview(*old(self)),
            r matches Ok(was) ==> was == (old(self).current_instance@ == name@)
                && sview(*final(self)) == (SettingsView { instances: without_key(iviews(old(self).instances@), name@), ..sview(*old(self)) }),
    {
        if self.instances.len() <= 1 {
            return Err(Error::Other(String::from_str("Cannot delete the last instance")));
        }
        let was = str_eq(self.current_instance.as_str(), name);
        let ghost orig = iviews(self.instances@);
        let ghost mut k: int = 0;
        let mut i: usize = 0;
        while i < self.instances.len()
            invariant
                0 <= i <= self.instances@.len(),
                0 <= k <= orig.len(),
                iviews(self.instances@).take(i as int) == without_key(orig.take(k), name@),
                iviews(self.instances@).skip(i as int) == orig.skip(k),
                sview(*self) == (SettingsView { instances: iviews(self.instances@), ..sview(*old(self)) }),
                orig == iviews(old(self).instances@),
            decreases self.instances@.len() - i,
        {
            let ghost before = iviews(self.instances@);
            proof {
                assert(before.skip(i as int).len() == orig.skip(k).len());
                assert(before[i as int] == before.skip(i as int)[0]);
                assert(orig.skip(k)[0] == orig[k]);
                assert(k < orig.len());
                assert(orig.take(k + 1).drop_last() == orig.take(k));
                assert(orig.take(k + 1).last() == orig[k]);
                assert(orig.skip(k).drop_first() == orig.skip(k + 1));
            }
            if str_eq(self.instances[i].0.as_str(), name) {
                self.instances.remove(i);
                proof {
                    assert(iviews(self.instances@) =~= before.take(i as int) + before.skip(i + 1));
                    assert(iviews(self.instances@).take(i as int) =~= before.take(i as int));
                    assert(iviews(self.instances@).skip(i as int) =~= before.skip(i as int).drop_first());
                    k = k + 1;
                }
            } else {
                proof {
                    assert(iviews(self.instances@).take(i + 1) =~= before.take(i as int).push(before[i as int]));
                    assert(iviews(self.instances@).skip(i + 1) =~= before.skip(i as int).drop_first());
                    k = k + 1;
                }
                i += 1;
            }
        }
        proof {
            assert(iviews(self.instances@).skip(i as int).len() == 0);
            assert(k == orig.len());
            assert(orig.take(k) == orig);
            assert(iviews(self.instances@) =~= iviews(self.instances@).take(i as int));
        }
        Ok(was)
    }

    /// Guarantee at least one instance and a valid `current_instance` (see `normalized`).
    pub fn normalize(&mut self)
        ensures
            sview(*final(self)) == normalized(sview(*old(self))),
    {
        let ghost v0 = sview(*self);
        let mut insts: Vec<(String, Instance)> = Vec::new();
        std::mem::swap(&mut insts, &mut self.instances);
        assert(iviews(insts@) == v0.instances);
        self.instances = fill_names(insts);
        if self.instances.len() == 0 {
            self.instances.push((String::from_str("Default"), Instance::named("Default")));
            proof {
                assert(iviews(self.instances@) =~= seq![("Default"@, named_instance("Default"@))]);
            }
        }
        let ghost i2 = iviews(self.instances@);
        proof {
            let i1 = names_filled(v0.instances);
            assert(i1.len() == v0.instances.len());
            assert(i2 == (if i1.len() == 0 {
                seq![("Default"@, named_instance("Default"@))]
            } else {
                i1
            }));
            assert(self.current_instance@ == v0.current_instance);
        }
        match self.instance_pos(self.current_instance.as_str()) {
            Some(k) => {
                proof {
                    assert(i2[k as int].0 == self.instances@[k as int].0@);
                    assert(i2[k as int].0 == self.current_instance@);
                    assert(has_key(i2, v0.current_instance));
                    assert(normalized(v0).current_instance == v0.current_instance);
                    assert(normalized(v0).instances == i2);
                    assert(sview(*self) =~= normalized(v0));
                }
            },
            None => {
                let least = self.least_instance_key();
                proof {
                    assert forall|k: int| 0 <= k < i2.len() implies #[trigger] i2[k].0 != self.current_instance@ by {
                        assert(i2[k].0 == self.instances@[k].0@);
                    }
                }
                self.current_instance = least;
                proof {
                    assert(sview(*self) =~= normalized(v0));
                }
            },
        }
    }

    /// The least instance key.
    fn least_instance_key(&self) -> (r: String)
        ensures
            r@ == least_key(iviews(self.instances@)),
    {
        let ghost iv = iviews(self.instances@);
        if self.instances.len() == 0 {
            return String::new();
        }
        let mut best: usize = 0;
        let mut k: usize = 1;
        proof {
            assert(iv.take(1).drop_last() =~= Seq::<(Seq<char>, InstanceView)>::empty());
        }
        while k < self.instances.len()
            invariant
                1 <= k <= self.instances@.len(),
                best < k,
                iv == iviews(self.instances@),
                least_key(iv.take(k as int)) == self.instances@[best as int].0@,
            decreases self.instances@.len() - k,
        {
            proof {
                assert(iv.take(k + 1).drop_last() == iv.take(k as int));
                assert(iv.take(k + 1).last() == iv[k as int]);
            }
            let a = crate::text::chars_of(self.instances[k].0.as_str());
            let b = crate::text::chars_of(self.instances[best].0.as_str());
            if crate::text::chars_lt(a.as_slice(), b.as_slice()) {
                best = k;
            }
            k += 1;
        }
        assert(iv.take(k as int) == iv);
        self.instances[best].0.clone()
    }
}

/// Keys never carried over when reading RimSort's settings.
pub open spec fn is_secret(k: Seq<char>) -> bool {
    k == "github_token"@ || k == "steam_apikey"@ || k == "rentry_auth_code"@
}

/// The members that are not secrets.
pub open spec fn without_secrets(e: Seq<(Seq<char>, JsonV)>) -> Seq<(Seq<char>, JsonV)> {
    crate::json::drop_key(crate::json::drop_key(crate::json::drop_key(e, "github_token"@), "steam_apikey"@), "rentry_auth_code"@)
}

impl Settings {
    /// RimSort's `settings.json` text as settings: JSON that is no object of the right shape is
    /// refused; secrets (`github_token`, `steam_apikey`, `rentry_auth_code`) are dropped and the
    /// result is normalized.
    pub fn from_rimsort_json(text: &str) -> (r: Result<Settings, Error>)
        ensures
            match json_doc(text@) {
                Some(v) => match settings_of(v) {
                    Some(sv) => r matches Ok(x) && sview(x) == normalized(SettingsView { extra: without_secrets(sv.extra), ..sv }),
                    None => r is Err,
                },
                None => r is Err,
            },
    {
        let v = match crate::json::parse_json(text) {
            Ok(v) => v,
            Err(m) => return Err(crate::rules::json_error(m)),
        };
        let mut s = match Settings::from_json(&v) {
            Some(s) => s,
            None => return Err(Error::Other(String::from_str("JSON: the settings have an unexpected shape"))),
        };
        let mut e0: Vec<(String, Json)> = Vec::new();
        std::mem::swap(&mut e0, &mut s.extra);
        let e1 = crate::json::without_member(e0, "github_token");
        let e2 = crate::json::without_member(e1, "steam_apikey");
        let e3 = crate::json::without_member(e2, "rentry_auth_code");
        s.extra = e3;
        s.normalize();
        Ok(s)
    }
}

/// The JSON document of an instance: its fields, then the keys it kept.
pub open spec fn instance_doc(i: InstanceView) -> JsonV {
    JsonV::Object(seq![
        ("name"@, JsonV::Str(i.name)),
        ("game_folder"@, JsonV::Str(i.game_folder)),
        ("config_folder"@, JsonV::Str(i.config_folder)),
        ("local_folder"@, JsonV::Str(i.local_folder)),
        ("workshop_folder"@, JsonV::Str(i.workshop_folder)),
        ("run_args"@, JsonV::Str(i.run_args)),
    ] + i.extra)
}

/// The JSON document of settings: their fields, then the keys they kept.
pub open spec fn settings_doc(v: SettingsView) -> JsonV {
    JsonV::Object(seq![
        ("sorting_algorithm"@, JsonV::Str(v.sorting_algorithm)),
        ("use_moddependencies_as_loadTheseBefore"@, JsonV::Bool(v.use_moddependencies_as_load_these_before)),
        ("use_alternative_package_ids_as_satisfying_dependencies"@, JsonV::Bool(v.use_alternative_package_ids_as_satisfying_dependencies)),
        ("check_dependencies_on_sort"@, JsonV::Bool(v.check_dependencies_on_sort)),
        ("prefer_versioned_about_tags"@, JsonV::Bool(v.prefer_versioned_about_tags)),
        ("current_instance"@, JsonV::Str(v.current_instance)),
        ("instances"@, JsonV::Object(v.instances.map_values(|p: (Seq<char>, InstanceView)| (p.0, instance_doc(p.1))))),
    ] + v.extra)
}

/// Copies of members.
fn copy_members(e: &Vec<(String, Json)>) -> (r: Vec<(String, Json)>)
    ensures
        jmembers(r@) == jmembers(e@),
{
    let ghost m = jmembers(e@);
    proof {
        crate::json::lemma_jmembers(e@);
    }
    let mut out: Vec<(String, Json)> = Vec::new();
    let mut i: usize = 0;
    while i < e.len()
        invariant
            0 <= i <= e@.len(),
            m == jmembers(e@),
            m.len() == e@.len(),
            forall|x: int| 0 <= x < e@.len() ==> #[trigger] m[x] == (e@[x].0@, jv(e@[x].1)),
            jmembers(out@) == m.take(i as int),
        decreases e@.len() - i,
    {
        let ghost o = out@;
        out.push((e[i].0.clone(), e[i].1.copy()));
        proof {
            assert(out@.drop_last() == o);
            assert(m.take(i + 1) == m.take(i as int).push(m[i as int]));
        }
        i += 1;
    }
    assert(m.take(m.len() as int) == m);
    out
}

/// `fields` followed by copies of `extra`.
fn with_extra(fields: Vec<(String, Json)>, extra: &Vec<(String, Json)>) -> (r: Vec<(String, Json)>)
    ensures
        jmembers(r@) == jmembers(fields@) + jmembers(extra@),
{
    let ghost f0 = jmembers(fields@);
    let mut out = fields;
    let tail = copy_members(extra);
    let ghost t0 = tail@;
    let mut i: usize = 0;
    proof {
        crate::json::lemma_jmembers(tail@);
        crate::json::lemma_jmembers(out@);
    }
    let n0 = out.len();
    while i < tail.len()
        invariant
            0 <= i <= tail@.len(),
            t0 == tail@,
            n0 <= out@.len(),
            jmembers(out@) == f0 + jmembers(t0).take(i as int),
            jmembers(t0) == jmembers(extra@),
            jmembers(t0).len() == t0.len(),
            forall|x: int| 0 <= x < t0.len() ==> #[trigger] jmembers(t0)[x] == (t0[x].0@, jv(t0[x].1)),
        decreases tail@.len() - i,
    {
        let ghost o = out@;
        out.push((tail[i].0.clone(), tail[i].1.copy()));
        proof {
            assert(out@.drop_last() == o);
            assert(jmembers(t0).take(i + 1) == jmembers(t0).take(i as int).push(jmembers(t0)[i as int]));
        }
        i += 1;
    }
    assert(jmembers(t0).take(t0.len() as int) == jmembers(t0));
    out
}

/// A string member.
fn str_member(k: &str, v: &String) -> (r: (String, Json))
    ensures
        r.0@ == k@,
        jv(r.1) == JsonV::Str(v@),
{
    (String::from_str(k), Json::Str(v.clone()))
}

impl Instance {
    /// The instance as JSON (see `instance_doc`).
    pub fn to_json(&self) -> (r: Json)
        ensures
            r@ == instance_doc(iview(*self)),
    {
        let mut f: Vec<(String, Json)> = Vec::new();
        f.push(str_member("name", &self.name));
        f.push(str_member("game_folder", &self.game_folder));
        f.push(str_member("config_folder", &self.config_folder));
        f.push(str_member("local_folder", &self.local_folder));
        f.push(str_member("workshop_folder", &self.workshop_folder));
        f.push(str_member("run_args", &self.run_args));
        proof {
            lemma_six(f@);
        }
        let m = with_extra(f, &self.extra);
        Json::Object(m)
    }
}

proof fn lemma_six(f: Seq<(String, Json)>)
    requires
        f.len() == 6,
    ensures
        jmembers(f) == seq![(f[0].0@, jv(f[0].1)), (f[1].0@, jv(f[1].1)), (f[2].0@, jv(f[2].1)), (f[3].0@, jv(f[3].1)), (f[4].0@, jv(f[4].1)), (f[5].0@, jv(f[5].1))],
{
    crate::json::lemma_jmembers(f);
    assert(jmembers(f) =~= seq![(f[0].0@, jv(f[0].1)), (f[1].0@, jv(f[1].1)), (f[2].0@, jv(f[2].1)), (f[3].0@, jv(f[3].1)), (f[4].0@, jv(f[4].1)), (f[5].0@, jv(f[5].1))]);
}

impl Settings {
    /// The settings as JSON (see `settings_doc`).
    pub fn to_json(&self) -> (r: Json)
        ensures
            r@ == settings_doc(sview(*self)),
    {
        let mut inst: Vec<(String, Json)> = Vec::new();
        let mut i: usize = 0;
        while i < self.instances.len()
            invariant
                0 <= i <= self.instances@.len(),
                jmembers(inst@) == iviews(self.instances@).take(i as int).map_values(|p: (Seq<char>, InstanceView)| (p.0, instance_doc(p.1))),
            decreases self.instances@.len() - i,
        {
            let ghost o = inst@;
            inst.push((self.instances[i].0.clone(), self.instances[i].1.to_json()));
            proof {
                assert(inst@.drop_last() == o);
                assert(jmembers(inst@) =~= iviews(self.instances@).take(i + 1).map_values(|p: (Seq<char>, InstanceView)| (p.0, instance_doc(p.1))));
            }
            i += 1;
        }
        assert(iviews(self.instances@).take(self.instances@.len() as int) == iviews(self.instances@));
        let mut f: Vec<(String, Json)> = Vec::new();
        f.push(str_member("sorting_algorithm", &self.sorting_algorithm));
        f.push((String::from_str("use_moddependencies_as_loadTheseBefore"), Json::Bool(self.use_moddependencies_as_load_these_before)));
        f.push((String::from_str("use_alternative_package_ids_as_satisfying_dependencies"), Json::Bool(self.use_alternative_package_ids_as_satisfying_dependencies)));
        f.push((String::from_str("check_dependencies_on_sort"), Json::Bool(self.check_dependencies_on_sort)));
        f.push((String::from_str("prefer_versioned_about_tags"), Json::Bool(self.prefer_versioned_about_tags)));
        f.push(str_member("current_instance", &self.current_instance));
        f.push((String::from_str("instances"), Json::Object(inst)));
        proof {
            crate::json::lemma_jmembers(f@);
            assert(jmembers(f@) =~= seq![
                ("sorting_algorithm"@, JsonV::Str(self.sorting_algorithm@)),
                ("use_moddependencies_as_loadTheseBefore"@, JsonV::Bool(self.use_moddependencies_as_load_these_before)),
                ("use_alternative_package_ids_as_satisfying_dependencies"@, JsonV::Bool(self.use_alternative_package_ids_as_satisfying_dependencies)),
                ("check_dependencies_on_sort"@, JsonV::Bool(self.check_dependencies_on_sort)),
                ("prefer_versioned_about_tags"@, JsonV::Bool(self.prefer_versioned_about_tags)),
                ("current_instance"@, JsonV::Str(self.current_instance@)),
                ("instances"@, JsonV::Object(iviews(self.instances@).map_values(|p: (Seq<char>, InstanceView)| (p.0, instance_doc(p.1))))),
            ]);
        }
        let m = with_extra(f, &self.extra);
        Json::Object(m)
    }

    /// The settings as pretty-printed JSON, as `settings.json` holds them.
    pub fn to_text(&self) -> (r: Result<String, Error>)
        ensures
            r matches Ok(t) && t@ == crate::json::json_pretty(settings_doc(sview(*self))),
    {
        let j = self.to_json();
        match crate::json::to_pretty(&j) {
            Some(t) => Ok(t),
            None => Err(Error::Other(String::from_str("JSON: the settings could not be written"))),
        }
    }
}

/// The least key is one of the keys.
proof fn lemma_least_key(s: Seq<(Seq<char>, InstanceView)>)
    requires
        s.len() > 0,
    ensures
        has_key(s, least_key(s)),
    decreases s.len(),
{
    if s.len() == 1 {
        assert(s[0].0 == least_key(s));
    } else {
        lemma_least_key(s.drop_last());
        let r = least_key(s.drop_last());
        if crate::text::lex_lt(s.last().0, r) {
            assert(s[s.len() - 1].0 == least_key(s));
        } else {
            let j = choose|j: int| 0 <= j < s.drop_last().len() && #[trigger] s.drop_last()[j].0 == r;
            assert(s[j].0 == least_key(s));
        }
    }
}

/// Normalized settings always have an instance, and the current instance is one of them;
/// normalizing again changes nothing.
pub proof fn law_normalized_has_current(v: SettingsView)
    ensures
        normalized(v).instances.len() > 0,
        has_key(normalized(v).instances, normalized(v).current_instance),
        normalized(normalized(v)) == normalized(v),
{
    let n = normalized(v);
    let i1 = names_filled(v.instances);
    if !has_key(n.instances, v.current_instance) {
        lemma_least_key(n.instances);
    }
    assert(names_filled(n.instances) =~= n.instances) by {
        if i1.len() == 0 {
            assert(named_instance("Default"@).name == "Default"@) by {
                reveal_strlit("Default");
            }
            assert(n.instances =~= seq![("Default"@, named_instance("Default"@))]);
            reveal_strlit("Default");
            assert("Default"@.len() > 0);
        } else {
            assert forall|j: int| 0 <= j < n.instances.len() implies #[trigger] names_filled(n.instances)[j] == n.instances[j] by {
                let p = v.instances[j];
                if p.1.name.len() == 0 {
                    assert(n.instances[j].1.name == p.0);
                }
            }
        }
    }
}

} // verus!
