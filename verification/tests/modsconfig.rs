use rimsort_core::mod_id::ModId;
use rimsort_core::mods::{Mod, ModIndex, ModType, Rules};
use rimsort_core::modsconfig::{backups_to_prune, config_ids, resolve_active, ModsConfig};
use rimsort_core::rules::ExtRule;
use rimsort_core::modsconfig::ActiveList;
use rimsort_core::state::{check_deletable, local_copy_folder, clean_rule_ids, duplicates, export_text, scan_precheck, session_after_scan, set_active, user_rule_of};
use rimsort_core::dto::{ExportFormat, UserRuleDto};
use rimsort_core::rules::version_folder;
use rimsort_core::meta::ModMeta;
use rimsort_core::rules::RuleSources;
use rimsort_core::error::Error;

fn mk(pid: &str, ty: ModType, path: &str) -> Mod {
    Mod {
        id: ModId::from_path(path),
        path: path.into(),
        folder: path.into(),
        mod_type: ty,
        valid: true,
        invalid_reason: None,
        package_id: pid.into(),
        name: pid.into(),
        authors: vec![],
        description: String::new(),
        url: String::new(),
        mod_version: String::new(),
        supported_versions: vec![],
        published_file_id: None,
        steam_app_id: None,
        rules: Rules::empty(),
        community: ExtRule::empty(),
        user: ExtRule::empty(),
        mtime: 0,
    }
}

#[test]
fn roundtrip_preserves_unknown_and_order() {
    let src = "<?xml version=\"1.0\" ?>\n<ModsConfigData>\n  <version>1.6.1 rev1</version>\n  <activeMods><li>B.b</li><li>a.a</li></activeMods>\n  <knownExpansions><li>ludeon.rimworld.royalty</li></knownExpansions>\n  <custom><x>1</x></custom>\n</ModsConfigData>";
    let cfg = ModsConfig::parse(src).unwrap();
    assert_eq!(cfg.active, ["b.b", "a.a"]);
    let again = ModsConfig::parse(&cfg.to_xml()).unwrap();
    assert_eq!(again.active, cfg.active);
    assert_eq!(again.known_expansions, cfg.known_expansions);
    assert!(cfg.to_xml().contains("<custom>"));
}

#[test]
fn duplicates_missing_and_steam_suffix() {
    let idx = ModIndex::new(
        vec![
            mk("dup.mod", ModType::SteamWorkshop, "w/1"),
            mk("dup.mod", ModType::Local, "l/dup"),
            mk("solo.mod", ModType::SteamWorkshop, "w/2"),
        ],
        String::new(),
        0,
    );
    let ids: Vec<String> = ["dup.mod", "gone.mod", "solo.mod", "dup.mod"].map(String::from).into();
    let l = resolve_active(&idx, &ids);
    assert_eq!(l.missing, ["gone.mod"]);
    assert_eq!(l.ids.len(), 2);
    assert_eq!(idx.get(l.ids[0]).unwrap().mod_type, ModType::Local);
    let s = resolve_active(&idx, &["dup.mod_steam".to_string()]);
    assert_eq!(idx.get(s.ids[0]).unwrap().mod_type, ModType::SteamWorkshop);
    assert_eq!(config_ids(&idx, &s), ["dup.mod_steam"]);
}

#[test]
fn new_config_has_version_and_only_core() {
    let cfg = ModsConfig::new("1.6.4633 rev1261");
    assert_eq!(cfg.version, "1.6.4633 rev1261");
    assert_eq!(cfg.active, ["ludeon.rimworld"]);
    let again = ModsConfig::parse(&cfg.to_xml()).unwrap();
    assert_eq!(again.version, "1.6.4633 rev1261");
    assert_eq!(again.active, ["ludeon.rimworld"]);
}

#[test]
fn garbage_config_is_an_error() {
    assert!(ModsConfig::parse("not xml at all").is_err());
}

#[test]
fn set_active_drops_unknown_invalid_and_repeated_ids() {
    let mut bad = mk("bad.mod", ModType::Local, "l/bad");
    bad.valid = false;
    let idx = ModIndex::new(vec![mk("a.a", ModType::Local, "l/a"), mk("b.b", ModType::Local, "l/b"), bad], String::new(), 0);
    let (a, b) = (ModId::from_path("l/a"), ModId::from_path("l/b"));
    let mut list = ActiveList { ids: vec![], steam_suffix: vec![a, b], missing: vec!["gone".into()] };
    set_active(&idx, &mut list, vec![b, ModId::from_path("nowhere"), b, ModId::from_path("l/bad")]);
    assert_eq!(list.ids, [b]);
    assert_eq!(list.steam_suffix, [b]);
    assert_eq!(list.missing, ["gone"]);
}

#[test]
fn duplicates_group_copies_by_package() {
    let idx = ModIndex::new(
        vec![
            mk("dup.mod", ModType::SteamWorkshop, "w/1"),
            mk("dup.mod", ModType::Local, "l/dup"),
            mk("solo.mod", ModType::SteamWorkshop, "w/2"),
            mk("aaa.twice", ModType::Local, "l/x"),
            mk("aaa.twice", ModType::Git, "l/y"),
        ],
        String::new(),
        0,
    );
    let active = vec![ModId::from_path("l/dup")];
    let d = duplicates(&idx, &active);
    assert_eq!(d.len(), 2);
    assert_eq!(d[0].package_id, "aaa.twice");
    assert_eq!(d[1].package_id, "dup.mod");
    assert_eq!(d[1].copies.len(), 2);
    assert_eq!(d[1].copies.iter().filter(|c| c.active).count(), 1);
    assert!(d[1].copies.iter().any(|c| c.active && c.path == "l/dup"));
}

#[test]
fn oldest_backups_are_pruned_in_natural_order() {
    let names: Vec<String> = ["ModsConfig.xml.bak-10", "ModsConfig.xml.bak-9", "ModsConfig.xml", "Prefs.xml.bak-1", "ModsConfig.xml.bak-100"]
        .iter()
        .map(|s| s.to_string())
        .collect();
    assert_eq!(
        backups_to_prune("ModsConfig.xml", &names, 1),
        vec!["ModsConfig.xml.bak-9".to_string(), "ModsConfig.xml.bak-10".to_string()]
    );
    assert!(backups_to_prune("ModsConfig.xml", &names, 3).is_empty());
    assert_eq!(backups_to_prune("ModsConfig.xml", &names, 0).len(), 3);
}

#[test]
fn scan_needs_a_game_folder() {
    assert!(matches!(scan_precheck(""), Err(Error::Other(m)) if m == "Game folder is not set (Settings \u{2192} Locations)"));
    assert!(scan_precheck("/games/RimWorld").is_ok());
}

#[test]
fn kept_list_wins_over_config_and_meta_ignores_are_added() {
    let idx = ModIndex::new(
        vec![mk("a.a", ModType::Local, "/m/a"), mk("b.b", ModType::Local, "/m/b")],
        "1.6".into(),
        0,
    );
    let cfg = ModsConfig::parse("<ModsConfigData><activeMods><li>a.a</li></activeMods></ModsConfigData>").unwrap();
    let mut rules = RuleSources::empty();
    rules.ignored = vec!["x.x".into()];
    let mut quiet = ModMeta::empty();
    quiet.ignore = true;
    let meta = vec![("b.b".to_string(), quiet), ("a.a".to_string(), ModMeta::empty())];
    let kept = Some(vec!["b.b".to_string(), "gone.mod".to_string()]);
    let (active, rules2) = session_after_scan(&idx, &Some(cfg), &kept, &meta, rules);
    assert_eq!(active.ids, vec![idx.mods[1].id]);
    assert_eq!(active.missing, vec!["gone.mod".to_string()]);
    assert_eq!(rules2.ignored, vec!["x.x".to_string(), "b.b".to_string()]);

    let cfg = ModsConfig::parse("<ModsConfigData><activeMods><li>a.a</li></activeMods></ModsConfigData>").unwrap();
    let (active, _) = session_after_scan(&idx, &Some(cfg), &Some(vec![]), &vec![], RuleSources::empty());
    assert_eq!(active.ids, vec![idx.mods[0].id]);
    let (active, _) = session_after_scan(&idx, &None, &None, &vec![], RuleSources::empty());
    assert!(active.ids.is_empty() && active.missing.is_empty());
}

#[test]
fn user_rule_ids_are_cleaned() {
    let v: Vec<String> = [" B.b ", "", "own.mod", "b.B", "C.c"].iter().map(|s| s.to_string()).collect();
    assert_eq!(clean_rule_ids(&v, "own.mod"), ["b.b", "c.c"]);
    let dto = UserRuleDto { load_after: v.clone(), load_before: vec!["  ".into()], load_top: true, load_bottom: false };
    let r = user_rule_of(&dto, "own.mod");
    assert_eq!(r.load_after, ["b.b", "c.c"]);
    assert!(r.load_before.is_empty());
    assert!(r.load_top && !r.load_bottom);
}

#[test]
fn export_formats() {
    let mut a = mk("a.a", ModType::Local, "/m/a");
    a.name = "Alpha".into();
    a.url = "https://a.example".into();
    let mut b = mk("b.b", ModType::SteamWorkshop, "/m/b");
    b.name = "Beta".into();
    b.published_file_id = Some("123".into());
    let mut c = mk("c.c", ModType::Local, "/m/c");
    c.name = "Gamma".into();
    let idx = ModIndex::new(vec![a, b, c], "1.6.4871 rev590".into(), 0);
    let ids: Vec<ModId> = idx.mods.iter().map(|m| m.id).collect();
    let active = ActiveList { ids, steam_suffix: vec![], missing: vec![] };
    assert_eq!(export_text(ExportFormat::PackageIds, &idx, &active, &None), "a.a\nb.b\nc.c");
    assert_eq!(
        export_text(ExportFormat::Report, &idx, &active, &None),
        "Created with RimSort-rs\nRimWorld game version this list was created for: 1.6.4871 rev590\nTotal # of mods: 3\n\nAlpha [a.a][https://a.example]\nBeta [b.b][https://steamcommunity.com/sharedfiles/filedetails/?id=123]\nGamma [c.c][No url specified]"
    );
    let xml = export_text(ExportFormat::Xml, &idx, &active, &None);
    let back = ModsConfig::parse(&xml).unwrap();
    assert_eq!(back.active, ["a.a", "b.b", "c.c"]);
    assert_eq!(back.version, "1.6.4871 rev590");
    let json = export_text(ExportFormat::Json, &idx, &active, &None);
    assert!(json.contains("\"activeMods\"") && json.contains("\"b.b\""));
}

#[test]
fn no_version_warning_folder_is_the_major_minor_version() {
    assert_eq!(version_folder("1.6.4871 rev590"), "1.6");
    assert_eq!(version_folder("1.6"), "1.6");
    assert_eq!(version_folder("1"), "1");
    assert_eq!(version_folder(""), "");
}

#[test]
fn only_non_game_mods_are_deleted_and_copies_are_named_local() {
    assert!(matches!(check_deletable(&mk("ludeon.rimworld", ModType::Ludeon, "/g/Data/Core")), Err(Error::Other(m)) if m == "The base game and expansions can't be deleted here"));
    assert!(check_deletable(&mk("a.a", ModType::Local, "/m/a")).is_ok());
    assert_eq!(local_copy_folder("/m", "2009463077").unwrap(), "2009463077-local");
    assert!(matches!(local_copy_folder("", "x"), Err(Error::Other(m)) if m == "Local mods folder is not set (Settings \u{2192} Locations)"));
}
