use rimsort_core::mod_id::ModId;
use rimsort_core::mods::{Dependency, Mod, ModIndex, ModType, Rules};
use rimsort_core::rules::{ExtRule, Replacement, RuleSources};
use rimsort_core::validate::{missing_dependencies, validate, workshop_id, WarningKind};

fn mk(pid: &str, f: impl FnOnce(&mut Mod)) -> Mod {
    let mut m = Mod {
        id: ModId::from_path(pid),
        path: pid.into(),
        folder: pid.into(),
        mod_type: ModType::Local,
        valid: true,
        invalid_reason: None,
        package_id: pid.into(),
        name: pid.to_uppercase(),
        authors: vec![],
        description: String::new(),
        url: String::new(),
        mod_version: String::new(),
        supported_versions: vec![],
        published_file_id: None,
        steam_app_id: None,
        rules: Rules::empty(),
        community: ExtRule::empty(),
        user: ExtRule::empty(),
        mtime: 0,
    };
    f(&mut m);
    m
}

fn dep(p: &str) -> Dependency {
    Dependency { package_id: p.into(), display_name: String::new(), workshop_url: String::new(), alternatives: vec![] }
}

fn run(mods: Vec<Mod>, order: &[&str], src: &RuleSources) -> Vec<(String, Vec<WarningKind>)> {
    let idx = ModIndex::new(mods, "1.6.4871 rev590".into(), 0);
    let ids: Vec<ModId> = order.iter().map(|p| ModId::from_path(p)).collect();
    validate(&idx, &ids, src, true)
        .mods
        .into_iter()
        .map(|mw| (idx.get(mw.id).unwrap().package_id.clone(), mw.warnings.iter().map(|w| w.kind).collect()))
        .collect()
}

fn kinds<'a>(w: &'a [(String, Vec<WarningKind>)], pid: &str) -> Option<&'a Vec<WarningKind>> {
    w.iter().find(|(p, _)| p == pid).map(|(_, k)| k)
}

#[test]
fn each_kind() {
    let mods = vec![
        mk("needs", |m| m.rules.dependencies = vec![dep("absent")]),
        mk("alt", |m| {
            let mut d = dep("absent");
            d.alternatives = vec!["here".into()];
            m.rules.dependencies = vec![d]
        }),
        mk("here", |_| {}),
        mk("a", |m| m.rules.load_after = vec!["b".into()]),
        mk("b", |_| {}),
        mk("x", |m| m.rules.incompatible_with = vec!["y".into()]),
        mk("y", |_| {}),
        mk("old", |m| m.supported_versions = vec!["1.4".into()]),
    ];
    let w = run(mods, &["needs", "alt", "here", "a", "b", "x", "y", "old"], &RuleSources::empty());
    assert_eq!(kinds(&w, "needs").unwrap(), &[WarningKind::MissingDependency]);
    assert!(kinds(&w, "alt").is_none() && kinds(&w, "here").is_none());
    assert_eq!(kinds(&w, "a").unwrap(), &[WarningKind::LoadAfter]);
    assert_eq!(kinds(&w, "x").unwrap(), &[WarningKind::Incompatible]);
    assert_eq!(kinds(&w, "y").unwrap(), &[WarningKind::Incompatible]);
    assert_eq!(kinds(&w, "old").unwrap(), &[WarningKind::VersionMismatch]);
}

#[test]
fn missing_dependency_report() {
    let d = |p: &str, url: &str| Dependency {
        package_id: p.into(),
        display_name: "Lib".into(),
        workshop_url: url.into(),
        alternatives: vec![],
    };
    let mods = vec![
        mk("a", |m| m.rules.dependencies = vec![d("lib.gone", "steam://url/CommunityFilePage/12345"), d("lib.here", "")]),
        mk("b", |m| m.rules.dependencies = vec![d("lib.gone", "")]),
        mk("lib.here", |_| {}),
    ];
    let idx = ModIndex::new(mods, String::new(), 0);
    let active = [ModId::from_path("a"), ModId::from_path("b")];
    let v = missing_dependencies(&idx, &active, &RuleSources::empty(), true);
    assert_eq!(v.len(), 2);
    let gone = v.iter().find(|d| d.package_id == "lib.gone").unwrap();
    assert_eq!((gone.workshop_id.as_deref(), gone.required_by.len(), gone.installed), (Some("12345"), 2, None));
    assert!(v.iter().find(|d| d.package_id == "lib.here").unwrap().installed.is_some());
    assert_eq!(workshop_id("https://steamcommunity.com/sharedfiles/filedetails/?id=99&x=1").as_deref(), Some("99"));
    assert_eq!(workshop_id("nothing"), None);
}

#[test]
fn use_this_instead_warning() {
    let mut src = RuleSources::empty();
    let mut r = Replacement::empty();
    r.new_name = "New".into();
    r.new_author = "Me".into();
    r.new_workshop_id = "222".into();
    src.replacements.push(("111".into(), r));
    let mods = vec![mk("old", |m| m.published_file_id = Some("111".into())), mk("fine", |_| {})];
    let w = run(mods, &["old", "fine"], &src);
    assert_eq!(kinds(&w, "old").unwrap(), &[WarningKind::UseThisInstead]);
    assert!(kinds(&w, "fine").is_none());
}

#[test]
fn ignored_and_no_version_warning_suppress() {
    let mods = vec![mk("old", |m| m.supported_versions = vec!["1.4".into()])];
    let mut src = RuleSources::empty();
    src.no_version_warning.push("old".into());
    assert!(run(mods, &["old"], &src).is_empty());
    let mods = vec![mk("needs", |m| m.rules.dependencies = vec![dep("absent")])];
    let mut src = RuleSources::empty();
    src.ignored.push("needs".into());
    assert!(run(mods, &["needs"], &src).is_empty());
}

#[test]
fn load_before_violation_and_counts() {
    let mods = vec![mk("p", |_| {}), mk("q", |m| m.rules.load_before = vec!["p".into()])];
    let idx = ModIndex::new(mods, "1.6".into(), 0);
    let ids = vec![ModId::from_path("p"), ModId::from_path("q")];
    let v = validate(&idx, &ids, &RuleSources::empty(), true);
    assert_eq!(v.mods.len(), 1);
    assert_eq!(v.mods[0].warnings[0].kind, WarningKind::LoadBefore);
    assert_eq!(v.mods[0].warnings[0].other, "p");
}
