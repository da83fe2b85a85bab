use rimsort_core::mod_id::ModId;
use rimsort_core::mods::{Dependency, Mod, ModIndex, ModType, Rules};
use rimsort_core::rules::ExtRule;
use rimsort_core::sort::{explain_cycles, sort_active, sort_strings, tier_one, tier_zero, SortOutcome, SortSettings};

fn dep(d: &str) -> Dependency {
    Dependency { package_id: d.to_string(), display_name: String::new(), workshop_url: String::new(), alternatives: vec![] }
}

fn mk(pid: &str, name: &str, after: &[&str], before: &[&str], deps: &[&str]) -> Mod {
    Mod {
        id: ModId::from_path(pid),
        path: pid.into(),
        folder: pid.into(),
        mod_type: ModType::Local,
        valid: true,
        invalid_reason: None,
        package_id: pid.into(),
        name: name.into(),
        authors: vec![],
        description: String::new(),
        url: String::new(),
        mod_version: String::new(),
        supported_versions: vec![],
        published_file_id: None,
        steam_app_id: None,
        rules: Rules {
            load_after: after.iter().map(|s| s.to_string()).collect(),
            load_before: before.iter().map(|s| s.to_string()).collect(),
            incompatible_with: vec![],
            dependencies: deps.iter().map(|d| dep(d)).collect(),
        },
        community: ExtRule::empty(),
        user: ExtRule::empty(),
        mtime: 0,
    }
}

const S: SortSettings = SortSettings { dependencies_as_load_after: false, use_alternative_ids: true };

fn run(mods: Vec<Mod>, s: SortSettings) -> (Vec<String>, SortOutcome) {
    let idx = ModIndex::new(mods, String::new(), 0);
    let active: Vec<ModId> = idx.mods.iter().rev().map(|m| m.id).collect();
    let out = sort_active(&idx, &active, s);
    (out.order.iter().map(|id| idx.get(*id).unwrap().package_id.clone()).collect(), out)
}

#[test]
fn tiers_levels_and_alpha() {
    let (order, _) = run(
        vec![
            mk("zed.mod", "Zed", &["brrainz.harmony"], &[], &[]),
            mk("brrainz.harmony", "Harmony", &[], &[], &[]),
            mk("ludeon.rimworld", "RimWorld", &[], &[], &[]),
            mk("a.mod", "Alpha", &["zed.mod"], &[], &[]),
            mk("b.mod", "Beta", &[], &["a.mod"], &[]),
            mk("unlimitedhugs.hugslib", "HugsLib", &[], &[], &[]),
        ],
        S,
    );
    assert_eq!(order, ["brrainz.harmony", "ludeon.rimworld", "unlimitedhugs.hugslib", "b.mod", "zed.mod", "a.mod"]);
}

#[test]
fn cycles_are_explained_with_their_sources() {
    let mut a = mk("a", "A", &["b"], &[], &[]);
    a.user.load_after = vec!["b".into()];
    let idx = ModIndex::new(vec![a, mk("b", "B", &["a"], &[], &[]), mk("c", "C", &["a"], &[], &[])], String::new(), 0);
    let lines = &explain_cycles(&idx, &[vec!["a".into(), "b".into()]])[0];
    assert_eq!(
        lines,
        &[
            "A (a) must load after B (b)  [mod's About.xml]",
            "A (a) must load after B (b)  [your rules]",
            "B (b) must load after A (a)  [mod's About.xml]",
        ]
    );
}

#[test]
fn cycle_reported() {
    let (order, out) = run(vec![mk("a", "A", &["b"], &[], &[]), mk("b", "B", &["a"], &[], &[])], S);
    assert!(order.is_empty());
    assert_eq!(out.cycles, [["a", "b"]]);
}

#[test]
fn dependencies_as_load_after_and_conflict_skip() {
    let s = SortSettings { dependencies_as_load_after: true, ..S };
    let (order, _) = run(vec![mk("a", "A", &[], &[], &["z"]), mk("z", "Z", &[], &[], &[])], s);
    assert_eq!(order, ["z", "a"]);
    let (order, out) = run(vec![mk("a", "A", &[], &[], &["z"]), mk("z", "Z", &["a"], &[], &[])], s);
    assert!(out.cycles.is_empty());
    assert_eq!(order, ["a", "z"]);
}

#[test]
fn sorted_order_is_the_active_set_once_each() {
    let (order, out) = run(
        vec![mk("x.a", "X", &[], &[], &[]), mk("x.b", "B", &["x.a"], &[], &[]), mk("x.c", "C", &[], &["x.a"], &[])],
        S,
    );
    assert!(out.cycles.is_empty());
    let mut sorted = order.clone();
    sorted.sort();
    assert_eq!(sorted, ["x.a", "x.b", "x.c"]);
    assert_eq!(order, ["x.c", "x.a", "x.b"]);
}

#[test]
fn tiers_name_the_framework_mods() {
    assert!(tier_zero().contains(&"brrainz.harmony".to_string()));
    assert!(tier_zero().contains(&"ludeon.rimworld".to_string()));
    assert!(tier_one().contains(&"unlimitedhugs.hugslib".to_string()));
}

#[test]
fn strings_sort_by_code_point() {
    assert_eq!(sort_strings(vec!["b".into(), "B".into(), "a".into()]), ["B", "a", "b"]);
}

#[test]
fn sort_does_not_depend_on_the_input_order() {
    let mods = vec![
        mk("zed.mod", "Zed", &["brrainz.harmony"], &[], &[]),
        mk("brrainz.harmony", "Harmony", &[], &[], &[]),
        mk("a.mod", "Alpha", &["zed.mod"], &[], &[]),
        mk("b.mod", "Beta", &[], &["a.mod"], &[]),
    ];
    let idx = ModIndex::new(mods, String::new(), 0);
    let fwd: Vec<ModId> = idx.mods.iter().map(|m| m.id).collect();
    let rev: Vec<ModId> = idx.mods.iter().rev().map(|m| m.id).collect();
    let a = sort_active(&idx, &fwd, S);
    let b = sort_active(&idx, &rev, S);
    assert_eq!(a.order, b.order);
    assert_eq!(a.order.len(), 4);
}

#[test]
fn failed_sort_does_not_depend_on_the_input_order() {
    let mods = vec![
        mk("c.mod", "C", &["d.mod"], &[], &[]),
        mk("d.mod", "D", &["c.mod"], &[], &[]),
        mk("a.mod", "A", &["b.mod"], &[], &[]),
        mk("b.mod", "B", &["a.mod"], &[], &[]),
        mk("e.mod", "E", &[], &[], &[]),
    ];
    let idx = ModIndex::new(mods, String::new(), 0);
    let fwd: Vec<ModId> = idx.mods.iter().map(|m| m.id).collect();
    let rev: Vec<ModId> = idx.mods.iter().rev().map(|m| m.id).collect();
    let a = sort_active(&idx, &fwd, S);
    let b = sort_active(&idx, &rev, S);
    assert!(a.order.is_empty() && b.order.is_empty());
    assert_eq!(a.cycles, b.cycles);
    assert_eq!(a.cycles, [["a.mod", "b.mod"], ["c.mod", "d.mod"]]);
}
